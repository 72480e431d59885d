use vstd::prelude::*;
use vstd::std_specs::cmp::PartialEqSpec;

use super::elem::{Elem, StopType};
use super::tile::{checked_shape_product, shape_product};
use crate::utils::calculation::{get_stop_level, stop_level_at};

verus! {

/// What a buffer holds: the entries row by row, the shape that arranges
/// them, and the cycle at which the first entry arrived.
pub struct BufferView<T> {
    pub shape: Seq<usize>,
    pub data: Seq<T>,
    pub creation_time: u64,
}

impl<T> BufferView<T> {
    /// The shape accounts for every entry, and its rank is a stop level.
    pub open spec fn wf(self) -> bool {
        &&& shape_product(self.shape) == self.data.len()
        &&& self.shape.len() <= u32::MAX
    }

    /// The stop level sent with entry `i`: the number of innermost axes that
    /// end there, and `1` for the only entry of a buffer of one.
    pub open spec fn level_at(self, i: int) -> nat {
        if self.data.len() == 1 {
            1
        } else {
            stop_level_at(self.shape, i as nat)
        }
    }

    /// The buffer written out as a stream.
    pub open spec fn to_stream(self) -> Seq<Elem<T>> {
        Seq::new(self.data.len(), |i: int| Elem::with_level(self.data[i], self.level_at(i)))
    }
}

/// The values behind a sequence of references.
pub open spec fn pointees<T>(s: Seq<&T>) -> Seq<T> {
    Seq::new(s.len(), |i: int| *s[i])
}

/// The buffer that a buffer of references stands for.
pub open spec fn pointee_buffer<T>(b: BufferView<&T>) -> BufferView<T> {
    BufferView { shape: b.shape, data: pointees(b.data), creation_time: b.creation_time }
}

/// A dense array of payloads of any rank, with the cycle of its making.
#[derive(Clone, Debug)]
pub struct Buffer<T> {
    shape: Vec<usize>,
    data: Vec<T>,
    creation_time: u64,
}

impl<T> View for Buffer<T> {
    type V = BufferView<T>;

    closed spec fn view(&self) -> BufferView<T> {
        BufferView { shape: self.shape@, data: self.data@, creation_time: self.creation_time }
    }
}

/// The default buffer is the empty buffer of rank one.
impl<T> Default for Buffer<T> {
    fn default() -> (b: Self)
        ensures
            b@ == (BufferView::<T> { shape: seq![0usize], data: Seq::empty(), creation_time: 0 }),
            b@.wf(),
    {
        let mut shape: Vec<usize> = Vec::with_capacity(1);
        shape.push(0);
        assert(shape@ =~= seq![0usize]);
        proof {
            crate::primitives::tile::lemma_shape_product_zero(shape@, 0);
        }
        Buffer { shape, data: Vec::new(), creation_time: 0 }
    }
}

/// Buffers are equal when their shapes and their entries are; the cycle of
/// their making is not compared. The equality of the entries is the entry
/// type's own, so proofs learn nothing from this comparison.
impl<T: PartialEq> PartialEq for Buffer<T> {
    fn eq(&self, other: &Self) -> (r: bool) {
        self.shape == other.shape && self.data == other.data
    }
}

impl<T: PartialEq> vstd::std_specs::cmp::PartialEqSpecImpl for Buffer<T> {
    open spec fn obeys_eq_spec() -> bool {
        false
    }

    open spec fn eq_spec(&self, other: &Self) -> bool {
        self@.shape == other@.shape
    }
}

/// The entries `a` and `b` are as many and equal one by one, by the
/// equality of the entry type.
pub open spec fn entries_eq<T: PartialEq>(a: Seq<T>, b: Seq<T>) -> bool {
    a.len() == b.len() && forall|i: int| #![auto] 0 <= i < a.len() ==> a[i].eq_spec(&b[i])
}

impl<T: PartialEq> Buffer<T> {
    /// Equality that compares the cycle of making too: the shapes are the
    /// same, the cycles of making are the same, and the entries are equal
    /// one by one. Of the entries it says what the equality of the entry
    /// type says, where that equality keeps to its own description.
    pub fn eq_with_time(&self, other: &Self) -> (r: bool)
        ensures
            r ==> self@.shape == other@.shape && self@.creation_time == other@.creation_time,
            T::obeys_eq_spec() ==> r == (self@.shape == other@.shape && entries_eq(self@.data, other@.data)
                && self@.creation_time == other@.creation_time),
    {
        let same_shape = self.shape == other.shape;
        assert(same_shape == (self.shape@ == other.shape@)) by {
            if same_shape {
                assert(self.shape@ =~= other.shape@);
            }
        }
        let same_entries = self.data == other.data;
        same_shape && same_entries && self.creation_time == other.creation_time
    }
}

/// Why no buffer came out of a stream.
#[derive(Debug)]
pub enum BufferizeError<T> {
    /// The stream was at its end before the buffer began.
    Finished,
    /// The stream ended inside the buffer.
    Incomplete,
    /// The buffer is complete and closes outer dimensions too: the buffer,
    /// and the stop level that is left for them.
    StopToken(Buffer<T>, StopType),
    /// The stop levels inside the buffer do not describe a dense array.
    Irregular,
}

/// `s` with entry `k` raised by one.
pub open spec fn bump(s: Seq<usize>, k: int) -> Seq<usize> {
    s.update(k, (s[k] + 1) as usize)
}

/// The axis counts after one more entry of stop level `level` that does not
/// close the buffer. The counts stand innermost axis first. A level equal to
/// the number of axes known so far opens the next axis; a level of the
/// outermost known axis counts one more position of it.
pub open spec fn track_next(info: Seq<usize>, level: nat) -> Seq<usize> {
    if info.len() == level && level > 0 {
        bump(info, level - 1).push(1)
    } else if info.len() == level + 1 {
        bump(info, level as int)
    } else {
        info
    }
}

/// The axis counts after the entries `start..end` of the stream.
pub open spec fn track_fold<T>(s: Seq<Elem<T>>, start: int, end: int) -> Seq<usize>
    decreases end - start,
{
    if end <= start {
        seq![0usize]
    } else {
        track_next(track_fold(s, start, end - 1), s[end - 1].level())
    }
}

/// The first position from `start` on whose stop level reaches `rank`, or
/// the length of the stream.
pub open spec fn group_end<T>(s: Seq<Elem<T>>, start: int, rank: nat) -> int
    decreases s.len() - start,
{
    if start < 0 || start >= s.len() {
        s.len() as int
    } else if s[start].level() >= rank {
        start
    } else {
        group_end(s, start + 1, rank)
    }
}

/// What reading one buffer of rank `rank` from position `start` gives.
pub enum GroupOutcome<T> {
    Finished,
    Incomplete,
    Irregular,
    /// The buffer, and the stop level that is left over for outer dimensions.
    Complete(BufferView<T>, nat),
}

/// The outcome for the gathered entries `data` with axis counts `info`,
/// closed by a stop of level `closing`.
pub open spec fn close_group<T>(
    rank: nat,
    info: Seq<usize>,
    data: Seq<T>,
    closing: nat,
    creation_time: u64,
) -> GroupOutcome<T> {
    if rank == 0 || info.len() < rank || rank > u32::MAX {
        GroupOutcome::Irregular
    } else {
        let shape = bump(info, rank - 1).reverse();
        if shape_product(shape) != data.len() {
            GroupOutcome::Irregular
        } else {
            GroupOutcome::Complete(
                BufferView { shape, data, creation_time },
                (closing - rank) as nat,
            )
        }
    }
}

/// What reading one buffer of rank `rank` from position `start` of the
/// stream gives, the first entry having arrived at `creation_time`.
pub open spec fn group_outcome<T>(s: Seq<Elem<T>>, start: int, rank: nat, creation_time: u64) -> GroupOutcome<T> {
    if start < 0 || start >= s.len() {
        GroupOutcome::Finished
    } else {
        let end = group_end(s, start, rank);
        if end >= s.len() {
            GroupOutcome::Incomplete
        } else {
            close_group(
                rank,
                track_fold(s, start, end),
                super::elem::values(s.subrange(start, end + 1)),
                s[end].level(),
                creation_time,
            )
        }
    }
}

/// `group_end` is the position `i` before which no level reaches `rank` and
/// at which the stream ends or a level does.
pub proof fn lemma_group_end<T>(s: Seq<Elem<T>>, start: int, i: int, rank: nat)
    requires
        0 <= start <= i <= s.len(),
        forall|j: int| start <= j < i ==> (#[trigger] s[j]).level() < rank,
        i < s.len() ==> s[i].level() >= rank,
    ensures
        group_end(s, start, rank) == i,
    decreases i - start,
{
    if start < i {
        assert(s[start].level() < rank);
        lemma_group_end(s, start + 1, i, rank);
    }
}

/// `group_end` lies between `start` and the length of the stream.
pub proof fn lemma_group_end_bounds<T>(s: Seq<Elem<T>>, start: int, rank: nat)
    requires
        0 <= start <= s.len(),
    ensures
        start <= group_end(s, start, rank) <= s.len(),
    decreases s.len() - start,
{
    if start < s.len() && s[start].level() < rank {
        lemma_group_end_bounds(s, start + 1, rank);
    }
}

/// The state of a buffer that is being gathered.
pub struct BuilderView<T> {
    pub rank: usize,
    pub data: Seq<T>,
    pub info: Seq<usize>,
    pub creation_time: Option<u64>,
    pub closing: Option<StopType>,
}

/// The outcome that a builder in state `b` stands for.
pub open spec fn builder_outcome<T>(b: BuilderView<T>) -> GroupOutcome<T> {
    match b.closing {
        None => if b.data.len() == 0 {
            GroupOutcome::Finished
        } else {
            GroupOutcome::Incomplete
        },
        Some(l) => close_group(
            b.rank as nat,
            b.info,
            b.data,
            l as nat,
            match b.creation_time {
                Some(t) => t,
                None => 0,
            },
        ),
    }
}

/// Whether the result of gathering says what `outcome` says.
pub open spec fn result_matches<T>(r: Result<Buffer<T>, BufferizeError<T>>, outcome: GroupOutcome<T>) -> bool {
    match outcome {
        GroupOutcome::Finished => r matches Err(BufferizeError::Finished),
        GroupOutcome::Incomplete => r matches Err(BufferizeError::Incomplete),
        GroupOutcome::Irregular => r matches Err(BufferizeError::Irregular),
        GroupOutcome::Complete(b, residual) => if residual == 0 {
            r matches Ok(buf) && buf@ == b && buf@.wf()
        } else {
            r matches Err(BufferizeError::StopToken(buf, l)) && buf@ == b && buf@.wf() && l == residual
        },
    }
}

/// Gathers the entries of one buffer, one at a time, and works out the shape
/// from their stop levels.
pub struct BufferBuilder<T> {
    rank: usize,
    buffer: Vec<T>,
    shape_info: Vec<usize>,
    creation_time: Option<u64>,
    closing: Option<StopType>,
}

impl<T> View for BufferBuilder<T> {
    type V = BuilderView<T>;

    closed spec fn view(&self) -> BuilderView<T> {
        BuilderView {
            rank: self.rank,
            data: self.buffer@,
            info: self.shape_info@,
            creation_time: self.creation_time,
            closing: self.closing,
        }
    }
}

impl<T> BufferBuilder<T> {
    /// The counts are counts of the entries gathered so far.
    pub closed spec fn wf(&self) -> bool {
        &&& self.shape_info.len() >= 1
        &&& forall|j: int|
            0 <= j < self.shape_info.len() ==> #[trigger] self.shape_info[j] + (if self.closing is Some {
                1int
            } else {
                0int
            }) <= self.buffer.len()
        &&& (self.buffer.len() > 0 ==> self.creation_time is Some)
        &&& (self.closing is Some ==> self.buffer.len() > 0)
        &&& (self.shape_info.len() <= self.rank || self.shape_info.len() == 1)
        &&& (self.closing matches Some(l) ==> l >= self.rank)
    }

    /// A builder for one buffer of rank `rank`, with nothing gathered.
    pub fn new(rank: usize) -> (b: Self)
        ensures
            b.wf(),
            b@ == (BuilderView::<T> {
                rank,
                data: Seq::empty(),
                info: seq![0usize],
                creation_time: None,
                closing: None,
            }),
    {
        let mut shape_info: Vec<usize> = Vec::new();
        shape_info.push(0);
        assert(shape_info@ =~= seq![0usize]);
        BufferBuilder { rank, buffer: Vec::new(), shape_info, creation_time: None, closing: None }
    }

    /// Whether a stop level has closed the buffer.
    pub fn is_closed(&self) -> (c: bool)
        ensures
            c == self@.closing.is_some(),
    {
        self.closing.is_some()
    }

    /// Takes one more entry, which arrived at cycle `now`. Returns whether
    /// its stop level closes the buffer.
    pub fn push(&mut self, elem: Elem<T>, now: u64) -> (closed: bool)
        requires
            old(self).wf(),
            old(self)@.closing is None,
        ensures
            final(self).wf(),
            closed == (elem.level() >= old(self)@.rank),
            final(self)@ == (BuilderView {
                rank: old(self)@.rank,
                data: old(self)@.data.push(elem.value()),
                info: if elem.level() >= old(self)@.rank {
                    old(self)@.info
                } else {
                    track_next(old(self)@.info, elem.level())
                },
                creation_time: match old(self)@.creation_time {
                    Some(t) => Some(t),
                    None => Some(now),
                },
                closing: if elem.level() >= old(self)@.rank {
                    Some(elem.level() as StopType)
                } else {
                    None
                },
            }),
    {
        let level = elem.stop_level();
        let st: usize = level as usize;
        if self.creation_time.is_none() {
            self.creation_time = Some(now);
        }
        self.buffer.push(elem.into_data());
        assert(self.buffer.len() <= usize::MAX);
        let n = self.shape_info.len();
        if st >= self.rank {
            self.closing = Some(level);
            return true;
        }
        if n == st && st > 0 {
            let c = self.shape_info[st - 1];
            self.shape_info.set(st - 1, c + 1);
            self.shape_info.push(1);
        } else if n - 1 == st {
            let c = self.shape_info[st];
            self.shape_info.set(st, c + 1);
        }
        false
    }

    /// Ends the gathering: the buffer, or why there is none.
    pub fn finish(self) -> (r: Result<Buffer<T>, BufferizeError<T>>)
        requires
            self.wf(),
        ensures
            result_matches(r, builder_outcome(self@)),
    {
        let closing = match self.closing {
            None => {
                if self.buffer.len() == 0 {
                    return Err(BufferizeError::Finished);
                } else {
                    return Err(BufferizeError::Incomplete);
                }
            },
            Some(l) => l,
        };
        let rank = self.rank;
        if rank == 0 || self.shape_info.len() < rank || rank > u32::MAX as usize {
            return Err(BufferizeError::Irregular);
        }
        let mut info = self.shape_info;
        let c = info[rank - 1];
        assert(self.buffer.len() <= usize::MAX);
        info.set(rank - 1, c + 1);
        let shape = reversed(&info);
        let fits = match checked_shape_product(&shape) {
            Some(p) => p == self.buffer.len(),
            None => false,
        };
        if !fits {
            return Err(BufferizeError::Irregular);
        }
        assert(shape@.len() <= u32::MAX);
        let buf = Buffer { shape, data: self.buffer, creation_time: self.creation_time.unwrap() };
        if closing as usize > rank {
            Err(BufferizeError::StopToken(buf, (closing as usize - rank) as StopType))
        } else {
            Ok(buf)
        }
    }
}

/// The entries of `v` in the opposite order.
pub fn reversed(v: &Vec<usize>) -> (r: Vec<usize>)
    ensures
        r@ == v@.reverse(),
{
    let mut r: Vec<usize> = Vec::with_capacity(v.len());
    let mut i: usize = v.len();
    while i > 0
        invariant
            i <= v.len(),
            r.len() == v.len() - i,
            forall|k: int| 0 <= k < r.len() ==> r[k] == v[v.len() - 1 - k],
        decreases i,
    {
        i -= 1;
        r.push(v[i]);
    }
    assert(r@ =~= v@.reverse());
    r
}

impl<T> Buffer<T> {
    /// The shape accounts for every entry.
    pub open spec fn wf(&self) -> bool {
        self@.wf()
    }

    /// A buffer over the entries `data`, given row by row, arranged by
    /// `shape`. `None` when the shape does not account for every entry.
    pub fn new(shape: Vec<usize>, data: Vec<T>, creation_time: u64) -> (b: Option<Self>)
        ensures
            b.is_some() <==> (BufferView { shape: shape@, data: data@, creation_time }).wf(),
            b.is_some() ==> b.unwrap()@ == (BufferView { shape: shape@, data: data@, creation_time }),
            b.is_some() ==> b.unwrap().wf(),
    {
        let n = data.len();
        let fits = match checked_shape_product(&shape) {
            Some(p) => p == n,
            None => false,
        };
        if !fits || shape.len() > u32::MAX as usize {
            return None;
        }
        Some(Buffer { shape, data, creation_time })
    }

    /// The cycle at which the first entry arrived.
    pub fn creation_time(&self) -> (t: u64)
        ensures
            t == self@.creation_time,
    {
        self.creation_time
    }

    /// The shape.
    pub fn shape(&self) -> (s: &Vec<usize>)
        ensures
            s@ == self@.shape,
    {
        &self.shape
    }

    /// The entries, row by row.
    pub fn data(&self) -> (d: &Vec<T>)
        ensures
            d@ == self@.data,
    {
        &self.data
    }

    /// The number of axes.
    pub fn ndim(&self) -> (n: usize)
        ensures
            n == self@.shape.len(),
    {
        self.shape.len()
    }

    /// The buffer written out as a stream: every entry with the stop level
    /// of the axes that end at it.
    pub fn to_elem_iter(&self) -> (out: Vec<Elem<&T>>)
        requires
            self.wf(),
        ensures
            super::elem::borrowed_stream(out@) == self@.to_stream(),
    {
        let n = self.data.len();
        let mut out: Vec<Elem<&T>> = Vec::with_capacity(n);
        if n == 0 {
            assert(super::elem::borrowed_stream(out@) =~= self@.to_stream());
            return out;
        }
        proof {
            if !crate::utils::calculation::all_positive(self.shape@) {
                let k = choose|k: int| 0 <= k < self.shape@.len() && !(self.shape@[k] > 0);
                super::tile::lemma_shape_product_zero(self.shape@, k);
            }
        }
        let mut i: usize = 0;
        while i < n
            invariant
                i <= n,
                n == self.data.len(),
                self@.wf(),
                crate::utils::calculation::all_positive(self.shape@),
                out.len() == i,
                forall|k: int| 0 <= k < i ==> super::elem::borrowed(#[trigger] out[k]) == self@.to_stream()[k],
            decreases n - i,
        {
            let level: usize = if n == 1 {
                1
            } else {
                get_stop_level(i, self.shape.as_slice())
            };
            out.push(Elem::from_level(&self.data[i], level as StopType));
            i += 1;
        }
        assert(super::elem::borrowed_stream(out@) =~= self@.to_stream());
        out
    }

    /// Reads one buffer of rank `rank` from the stream, beginning at
    /// position `start`, the first entry having arrived at `creation_time`.
    /// Returns the buffer or why there is none, and the position after the
    /// last entry read.
    pub fn from_stream<'a>(stream: &'a Vec<Elem<T>>, start: usize, rank: usize, creation_time: u64) -> (res: (
        Result<Buffer<&'a T>, BufferizeError<&'a T>>,
        usize,
    ))
        ensures
            borrowed_result_matches(res.0, group_outcome(stream@, start as int, rank as nat, creation_time)),
            start <= stream.len() ==> start <= res.1 <= stream.len(),
            start < stream.len() ==> res.1 == if group_end(stream@, start as int, rank as nat) < stream.len() {
                group_end(stream@, start as int, rank as nat) + 1
            } else {
                stream.len() as int
            },
    {
        let mut builder: BufferBuilder<&'a T> = BufferBuilder::new(rank);
        if start >= stream.len() {
            let r = builder.finish();
            return (r, start);
        }
        let mut i: usize = start;
        let mut closed = false;
        assert(pointees(builder@.data) =~= super::elem::values(stream@.subrange(start as int, i as int)));
        while i < stream.len() && !closed
            invariant
                start <= i <= stream.len(),
                start < stream.len(),
                builder.wf(),
                builder@.rank == rank,
                pointees(builder@.data) == super::elem::values(stream@.subrange(start as int, i as int)),
                builder@.data.len() == i - start,
                !closed ==> builder@.info == track_fold(stream@, start as int, i as int),
                closed ==> i > start && builder@.info == track_fold(stream@, start as int, i - 1),
                !closed ==> builder@.closing is None,
                closed ==> builder@.closing == Some(stream@[i - 1].level() as StopType) && stream@[i - 1].level() >= rank,
                forall|j: int| start <= j < i - (if closed { 1int } else { 0int }) ==> (#[trigger] stream@[j]).level() < rank,
                i > start ==> builder@.creation_time == Some(creation_time),
                i == start ==> builder@.creation_time is None,
            decreases stream.len() - i, if closed { 0int } else { 1int },
        {
            let ghost before = builder@;
            let er = stream[i].as_ref();
            closed = builder.push(er, creation_time);
            proof {
                let e = stream@[i as int];
                assert(super::elem::borrowed(er) == e);
                assert(stream@.subrange(start as int, i + 1) =~= stream@.subrange(start as int, i as int).push(e));
                let want = super::elem::values(stream@.subrange(start as int, i + 1));
                let had = super::elem::values(stream@.subrange(start as int, i as int));
                assert(pointees(before.data) == had);
                assert forall|k: int| 0 <= k < want.len() implies pointees(builder@.data)[k] == want[k] by {
                    if k < had.len() {
                        assert(pointees(before.data)[k] == had[k]);
                    }
                }
                assert(pointees(builder@.data) =~= want);
            }
            i += 1;
        }
        let r = builder.finish();
        proof {
            let s = stream@;
            if closed {
                lemma_group_end(s, start as int, i - 1, rank as nat);
            } else {
                lemma_group_end(s, start as int, i as int, rank as nat);
            }
        }
        (r, i)
    }
}

/// Whether the result of gathering references says what `outcome` says of
/// the values behind them.
pub open spec fn borrowed_result_matches<T>(r: Result<Buffer<&T>, BufferizeError<&T>>, outcome: GroupOutcome<T>) -> bool {
    match outcome {
        GroupOutcome::Finished => r matches Err(BufferizeError::Finished),
        GroupOutcome::Incomplete => r matches Err(BufferizeError::Incomplete),
        GroupOutcome::Irregular => r matches Err(BufferizeError::Irregular),
        GroupOutcome::Complete(b, residual) => if residual == 0 {
            r matches Ok(buf) && pointee_buffer(buf@) == b && buf@.wf()
        } else {
            r matches Err(BufferizeError::StopToken(buf, l)) && pointee_buffer(buf@) == b && buf@.wf() && l
                == residual
        },
    }
}

} // verus!
