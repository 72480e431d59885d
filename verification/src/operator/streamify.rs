use vstd::prelude::*;

use crate::primitives::buffer::{Buffer, BufferView};
use crate::primitives::elem::{borrowed, borrowed_stream, Elem, StopType};
use crate::primitives::tile::{checked_shape_product, lemma_shape_product_positive, shape_product};
use crate::utils::calculation::{get_stop_level, stop_level_at};

verus! {

/// The element `e` with its stop level raised by `bonus` if that level is
/// `rank`, the level that ends a buffer.
pub open spec fn raise_at<T>(e: Elem<T>, rank: nat, bonus: nat) -> Elem<T> {
    match e {
        Elem::Val(x) => Elem::Val(x),
        Elem::ValStop(x, l) => Elem::ValStop(
            x,
            if l == rank {
                (l + bonus) as u32
            } else {
                l
            },
        ),
    }
}

/// One reading of the buffer as a stream, the stops of level `rank` raised
/// by `bonus`.
pub open spec fn traversal<T>(b: BufferView<T>, rank: nat, bonus: nat) -> Seq<Elem<T>> {
    Seq::new(b.data.len(), |i: int| raise_at(b.to_stream()[i], rank, bonus))
}

/// By how much reading number `t` raises the stop that ends the buffer: by
/// the number of repeat loops that end with this reading, and by the stop
/// level `outer` of the buffer itself if all of them do.
pub open spec fn repeat_bonus(repeat: Seq<usize>, t: nat, outer: nat) -> nat {
    let m = stop_level_at(repeat, t);
    if m == repeat.len() {
        m + outer
    } else {
        m
    }
}

/// The first `n` readings of the buffer under the nested repeat loops
/// `repeat`, the last entry of `repeat` being the innermost loop.
pub open spec fn streamify_upto<T>(b: BufferView<T>, rank: nat, repeat: Seq<usize>, outer: nat, n: nat) -> Seq<
    Elem<T>,
>
    decreases n,
{
    if n == 0 {
        Seq::empty()
    } else {
        streamify_upto(b, rank, repeat, outer, (n - 1) as nat) + traversal(
            b,
            rank,
            repeat_bonus(repeat, (n - 1) as nat, outer),
        )
    }
}

/// The stream sent for one buffer that arrived with stop level `outer`.
pub open spec fn streamify_buffer<T>(b: BufferView<T>, rank: nat, repeat: Seq<usize>, outer: nat) -> Seq<Elem<T>> {
    streamify_upto(b, rank, repeat, outer, shape_product(repeat))
}

/// The stream sent for a stream of buffers.
pub open spec fn streamify_stream<T>(bufs: Seq<Elem<BufferView<T>>>, rank: nat, repeat: Seq<usize>) -> Seq<Elem<T>>
    decreases bufs.len(),
{
    if bufs.len() == 0 {
        Seq::empty()
    } else {
        streamify_stream(bufs.drop_last(), rank, repeat) + streamify_buffer(
            bufs.last().value(),
            rank,
            repeat,
            bufs.last().level(),
        )
    }
}

/// The stream of buffer contents behind a stream of buffers.
pub open spec fn buffer_views<T>(s: Seq<Elem<Buffer<T>>>) -> Seq<Elem<BufferView<T>>> {
    Seq::new(
        s.len(),
        |i: int|
            match s[i] {
                Elem::Val(b) => Elem::Val(b@),
                Elem::ValStop(b, l) => Elem::ValStop(b@, l),
            },
    )
}

/// Without repeat loops, a buffer that arrived as a bare value is sent as
/// the stream that it holds.
pub proof fn lemma_streamify_plain<T>(b: BufferView<T>, rank: nat)
    ensures
        streamify_buffer(b, rank, Seq::<usize>::empty(), 0) == b.to_stream(),
{
    let r = Seq::<usize>::empty();
    assert(shape_product(r) == 1);
    assert(repeat_bonus(r, 0, 0) == 0);
    assert(streamify_upto(b, rank, r, 0, 0) =~= Seq::<Elem<T>>::empty());
    assert(traversal(b, rank, 0) =~= b.to_stream()) by {
        assert forall|i: int| 0 <= i < b.data.len() implies raise_at(b.to_stream()[i], rank, 0)
            == b.to_stream()[i] by {
            let e = b.to_stream()[i];
            match e {
                Elem::Val(x) => {},
                Elem::ValStop(x, l) => {},
            }
        }
    }
    assert(streamify_upto(b, rank, r, 0, 1) =~= b.to_stream());
}

/// Reads buffers out as streams, each as often as the nested repeat loops
/// `repeat_factor` ask for; every loop adds a dimension above the buffer's.
pub struct Streamify {
    repeat_factor: Vec<usize>,
    rank: StopType,
}

impl Streamify {
    /// The repeat loops, outermost first.
    pub closed spec fn repeat(&self) -> Seq<usize> {
        self.repeat_factor@
    }

    /// The stop level that ends a buffer.
    pub closed spec fn rank(&self) -> nat {
        self.rank as nat
    }

    /// The number of readings per buffer fits the machine word, and the
    /// raised stop levels leave room for the buffer's own.
    pub open spec fn wf(&self) -> bool {
        &&& shape_product(self.repeat()) <= usize::MAX
        &&& self.rank() + self.repeat().len() <= u32::MAX
    }

    pub fn new(repeat_factor: Vec<usize>, rank: StopType) -> (s: Self)
        ensures
            s.repeat() == repeat_factor@,
            s.rank() == rank,
    {
        Streamify { repeat_factor, rank }
    }

    /// The number of readings of each buffer, each entry of which costs one
    /// cycle to send.
    pub fn readings(&self) -> (n: usize)
        requires
            self.wf(),
        ensures
            n == shape_product(self.repeat()),
    {
        checked_shape_product(&self.repeat_factor).unwrap()
    }

    /// The stream to send for one buffer that arrived with stop level
    /// `outer`, `0` for a bare value.
    pub fn emit<'a, T>(&self, buff: &'a Buffer<T>, outer: StopType) -> (out: Vec<Elem<&'a T>>)
        requires
            self.wf(),
            buff.wf(),
            self.rank() + self.repeat().len() + outer <= u32::MAX,
        ensures
            borrowed_stream(out@) == streamify_buffer(buff@, self.rank(), self.repeat(), outer as nat),
    {
        let base = buff.to_elem_iter();
        let n = self.readings();
        let mut out: Vec<Elem<&'a T>> = Vec::new();
        let mut t: usize = 0;
        let ghost repeat = self.repeat();
        let ghost rank = self.rank();
        proof {
            assert(borrowed_stream(out@) =~= streamify_upto(buff@, rank, repeat, outer as nat, 0));
            if n > 0 {
                lemma_shape_product_positive(repeat);
            }
            assert(borrowed_stream(base@).len() == buff@.data.len());
        }
        while t < n
            invariant
                t <= n,
                n == shape_product(repeat),
                repeat == self.repeat(),
                repeat == self.repeat_factor@,
                rank == self.rank(),
                rank == self.rank as nat,
                n > 0 ==> crate::utils::calculation::all_positive(repeat),
                rank + repeat.len() + outer <= u32::MAX,
                borrowed_stream(base@) == buff@.to_stream(),
                base.len() == buff@.data.len(),
                borrowed_stream(out@) == streamify_upto(buff@, rank, repeat, outer as nat, t as nat),
            decreases n - t,
        {
            let m = get_stop_level(t, self.repeat_factor.as_slice());
            let bonus: u32 = if m == self.repeat_factor.len() {
                m as u32 + outer
            } else {
                m as u32
            };
            assert(bonus == repeat_bonus(repeat, t as nat, outer as nat));
            let ghost before = out@;
            let ghost one = traversal(buff@, rank, bonus as nat);
            let mut i: usize = 0;
            while i < base.len()
                invariant
                    i <= base.len(),
                    rank == self.rank as nat,
                    rank + bonus <= u32::MAX,
                    borrowed_stream(base@) == buff@.to_stream(),
                    base.len() == buff@.data.len(),
                    one == traversal(buff@, rank, bonus as nat),
                    out.len() == before.len() + i,
                    forall|j: int| 0 <= j < before.len() ==> out[j] == before[j],
                    forall|j: int| 0 <= j < i ==> borrowed(#[trigger] out[before.len() + j]) == one[j],
                decreases base.len() - i,
            {
                assert(borrowed_stream(base@)[i as int] == borrowed(base[i as int]));
                let e = match base[i] {
                    Elem::Val(x) => Elem::Val(x),
                    Elem::ValStop(x, l) => {
                        if l == self.rank {
                            Elem::ValStop(x, l + bonus)
                        } else {
                            Elem::ValStop(x, l)
                        }
                    },
                };
                assert(borrowed(e) == raise_at(borrowed(base[i as int]), rank, bonus as nat));
                out.push(e);
                i += 1;
            }
            proof {
                let want = borrowed_stream(before) + one;
                assert forall|j: int| 0 <= j < out.len() implies borrowed_stream(out@)[j] == want[j] by {
                    if j >= before.len() {
                        assert(borrowed(out[before.len() + (j - before.len())]) == one[j - before.len()]);
                    }
                }
                assert(borrowed_stream(out@) =~= want);
            }
            t += 1;
        }
        out
    }

    /// The whole output stream for a whole stream of buffers.
    pub fn run<'a, T>(&self, input: &'a Vec<Elem<Buffer<T>>>) -> (out: Vec<Elem<&'a T>>)
        requires
            self.wf(),
            forall|i: int|
                0 <= i < input.len() ==> (#[trigger] input[i]).value().wf() && self.rank() + self.repeat().len()
                    + input[i].level() <= u32::MAX,
        ensures
            borrowed_stream(out@) == streamify_stream(buffer_views(input@), self.rank(), self.repeat()),
    {
        let mut out: Vec<Elem<&'a T>> = Vec::new();
        let mut i: usize = 0;
        let ghost views = buffer_views(input@);
        proof {
            assert(views.subrange(0, 0) =~= Seq::<Elem<BufferView<T>>>::empty());
            assert(borrowed_stream(out@) =~= Seq::<Elem<T>>::empty());
        }
        while i < input.len()
            invariant
                i <= input.len(),
                self.wf(),
                views == buffer_views(input@),
                forall|k: int|
                    0 <= k < input.len() ==> (#[trigger] input[k]).value().wf() && self.rank()
                        + self.repeat().len() + input[k].level() <= u32::MAX,
                borrowed_stream(out@) == streamify_stream(views.subrange(0, i as int), self.rank(), self.repeat()),
            decreases input.len() - i,
        {
            assert(input[i as int].value().wf());
            let outer = input[i].stop_level();
            let mut part = self.emit(input[i].data(), outer);
            proof {
                let cur = views.subrange(0, i + 1);
                assert(cur.drop_last() =~= views.subrange(0, i as int));
                assert(cur.last() == views[i as int]);
                assert(views[i as int].value() == input[i as int].value()@);
                assert(views[i as int].level() == input[i as int].level());
                assert(borrowed_stream(out@ + part@) =~= borrowed_stream(out@) + borrowed_stream(part@));
            }
            out.append(&mut part);
            i += 1;
        }
        assert(views.subrange(0, input.len() as int) =~= views);
        out
    }
}

} // verus!
