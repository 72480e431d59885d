use vstd::prelude::*;

use super::{lemma_after_after, lemma_after_nothing, lemma_borrowed_push, ProtocolError, Run};
use crate::primitives::elem::{borrowed, borrowed_stream, Elem, StopType};

verus! {

/// The parameters of a reshape, as numbers.
pub struct ReshapeCfg {
    /// The dimension that is split; `0` is the innermost.
    pub split_dim: nat,
    /// The length of the chunks that it is split into.
    pub chunk_size: nat,
    /// Whether a pad value was given.
    pub has_pad: bool,
    /// The rank of the input stream.
    pub input_stream_rank: nat,
    /// Whether the chunks of a rank-0 stream form an outer dimension that
    /// ends with the stream.
    pub add_outer_dim: bool,
}

/// What to send for one element received.
pub struct ReshapeEmit {
    /// The stop marker to send the received value with.
    pub stop: Option<StopType>,
    /// How many pad values to send after it.
    pub pads: usize,
    /// The stop level of the last pad value; the others are bare.
    pub pad_stop: StopType,
}

/// What to send for an element with marker `stop` when `counter` elements of
/// the current chunk were seen before it, and the count after it.
/// `has_next` says whether the input has another element.
pub open spec fn reshape_step(cfg: ReshapeCfg, counter: nat, stop: Option<StopType>, has_next: bool) -> Result<
    (ReshapeEmit, nat),
    ProtocolError,
> {
    if cfg.split_dim == 0 {
        match stop {
            None => if counter + 1 == cfg.chunk_size {
                Ok(
                    (
                        ReshapeEmit {
                            stop: Some(
                                if cfg.add_outer_dim && !has_next {
                                    2u32
                                } else {
                                    1u32
                                },
                            ),
                            pads: 0,
                            pad_stop: 0,
                        },
                        0nat,
                    ),
                )
            } else {
                Ok((ReshapeEmit { stop: None, pads: 0, pad_stop: 0 }, counter + 1))
            },
            Some(s) => if counter + 1 == cfg.chunk_size {
                Ok((ReshapeEmit { stop: Some((s + 1) as u32), pads: 0, pad_stop: 0 }, 0nat))
            } else if !cfg.has_pad {
                Err(ProtocolError::MissingPad)
            } else {
                Ok(
                    (
                        ReshapeEmit {
                            stop: None,
                            pads: (cfg.chunk_size - counter - 1) as usize,
                            pad_stop: (s + 1) as u32,
                        },
                        0nat,
                    ),
                )
            },
        }
    } else {
        match stop {
            None => Ok((ReshapeEmit { stop: None, pads: 0, pad_stop: 0 }, counter)),
            Some(s) => {
                let c = if s >= cfg.split_dim {
                    counter + 1
                } else {
                    counter
                };
                if c == cfg.chunk_size {
                    Ok((ReshapeEmit { stop: Some((s + 1) as u32), pads: 0, pad_stop: 0 }, 0nat))
                } else {
                    Ok((ReshapeEmit { stop: Some(s), pads: 0, pad_stop: 0 }, c))
                }
            },
        }
    }
}

/// The pad values to send when the input ends with `counter` elements in the
/// current chunk: how many, and the stop level of the last.
pub open spec fn reshape_close(cfg: ReshapeCfg, counter: nat) -> Result<(usize, StopType), ProtocolError> {
    if cfg.split_dim == 0 && 0 < counter < cfg.chunk_size {
        if !cfg.has_pad {
            Err(ProtocolError::MissingPad)
        } else if cfg.input_stream_rank != 0 {
            Err(ProtocolError::BadConfig)
        } else {
            Ok(
                (
                    (cfg.chunk_size - counter) as usize,
                    if cfg.add_outer_dim {
                        2u32
                    } else {
                        1u32
                    },
                ),
            )
        }
    } else {
        Ok((0usize, 0u32))
    }
}

/// `n` pad values, bare except the last, which closes `stop` dimensions.
pub open spec fn pad_seq<T>(pad: Option<T>, n: nat, stop: StopType) -> Seq<Elem<T>> {
    match pad {
        Some(p) => Seq::new(
            n,
            |j: int|
                if j < n - 1 {
                    Elem::Val(p)
                } else {
                    Elem::ValStop(p, stop)
                },
        ),
        None => Seq::empty(),
    }
}

/// The elements sent for the received value `x` under `emit`.
pub open spec fn reshape_emitted<T>(x: T, emit: ReshapeEmit, pad: Option<T>) -> Seq<Elem<T>> {
    seq![Elem::with_stop(x, emit.stop)] + pad_seq(pad, emit.pads as nat, emit.pad_stop)
}

/// The run of a reshape from position `i` of the stream on, `counter`
/// elements of the current chunk having been seen.
pub open spec fn reshape_from<T>(cfg: ReshapeCfg, pad: Option<T>, s: Seq<Elem<T>>, i: int, counter: nat) -> Run<T>
    decreases s.len() - i,
{
    if i < 0 || i >= s.len() {
        match reshape_close(cfg, counter) {
            Ok((n, stop)) => Run { out: pad_seq(pad, n as nat, stop), err: None },
            Err(e) => Run::fail(e),
        }
    } else {
        match reshape_step(cfg, counter, s[i].stop(), i + 1 < s.len()) {
            Ok((emit, c)) => reshape_from(cfg, pad, s, i + 1, c).after(reshape_emitted(s[i].value(), emit, pad)),
            Err(e) => Run::fail(e),
        }
    }
}

/// The run of a reshape over the whole stream.
pub open spec fn reshape_stream<T>(cfg: ReshapeCfg, pad: Option<T>, s: Seq<Elem<T>>) -> Run<T> {
    reshape_from(cfg, pad, s, 0, 0)
}

/// Splits one dimension of a stream into chunks of a fixed length. The
/// innermost dimension is padded where the chunks do not fill it.
pub struct Reshape<InputType> {
    split_dim: usize,
    chunk_size: usize,
    pad_val: Option<InputType>,
    input_stream_rank: StopType,
    add_outer_dim: bool,
    counter: usize,
}

impl<InputType> Reshape<InputType> {
    /// The parameters.
    pub closed spec fn cfg(&self) -> ReshapeCfg {
        ReshapeCfg {
            split_dim: self.split_dim as nat,
            chunk_size: self.chunk_size as nat,
            has_pad: self.pad_val is Some,
            input_stream_rank: self.input_stream_rank as nat,
            add_outer_dim: self.add_outer_dim,
        }
    }

    /// The pad value.
    pub closed spec fn pad(&self) -> Option<InputType> {
        self.pad_val
    }

    /// How many elements of the current chunk were seen.
    pub closed spec fn counter(&self) -> nat {
        self.counter as nat
    }

    /// The chunk length is positive and the count is below it.
    pub closed spec fn wf(&self) -> bool {
        self.chunk_size >= 1 && self.counter < self.chunk_size
    }

    pub fn new(
        split_dim: usize,
        chunk_size: usize,
        pad_val: Option<InputType>,
        input_stream_rank: StopType,
        add_outer_dim: bool,
    ) -> (r: Self)
        requires
            chunk_size >= 1,
        ensures
            r.wf(),
            r.counter() == 0,
            r.pad() == pad_val,
            r.cfg() == (ReshapeCfg {
                split_dim: split_dim as nat,
                chunk_size: chunk_size as nat,
                has_pad: pad_val is Some,
                input_stream_rank: input_stream_rank as nat,
                add_outer_dim,
            }),
    {
        Reshape { split_dim, chunk_size, pad_val, input_stream_rank, add_outer_dim, counter: 0 }
    }

    /// The pad value, to send copies of.
    pub fn pad_val(&self) -> (p: &Option<InputType>)
        ensures
            *p == self.pad(),
    {
        &self.pad_val
    }

    /// What to send for an element with marker `stop`, from the count
    /// `counter` on, and the count after it.
    fn step_from(&self, counter: usize, stop: Option<StopType>, has_next: bool) -> (r: Result<
        (ReshapeEmit, usize),
        ProtocolError,
    >)
        requires
            self.chunk_size >= 1,
            counter < self.chunk_size,
            stop matches Some(s) ==> s < u32::MAX,
        ensures
            match r {
                Ok((emit, c)) => reshape_step(self.cfg(), counter as nat, stop, has_next) == Ok::<
                    (ReshapeEmit, nat),
                    ProtocolError,
                >((emit, c as nat)) && c < self.chunk_size,
                Err(e) => reshape_step(self.cfg(), counter as nat, stop, has_next) == Err::<
                    (ReshapeEmit, nat),
                    ProtocolError,
                >(e),
            },
    {
        if self.split_dim == 0 {
            let c = counter + 1;
            match stop {
                None => {
                    if c == self.chunk_size {
                        let level: StopType = if self.add_outer_dim && !has_next {
                            2
                        } else {
                            1
                        };
                        Ok((ReshapeEmit { stop: Some(level), pads: 0, pad_stop: 0 }, 0))
                    } else {
                        Ok((ReshapeEmit { stop: None, pads: 0, pad_stop: 0 }, c))
                    }
                },
                Some(s) => {
                    if c == self.chunk_size {
                        Ok((ReshapeEmit { stop: Some(s + 1), pads: 0, pad_stop: 0 }, 0))
                    } else if self.pad_val.is_none() {
                        Err(ProtocolError::MissingPad)
                    } else {
                        Ok((ReshapeEmit { stop: None, pads: self.chunk_size - c, pad_stop: s + 1 }, 0))
                    }
                },
            }
        } else {
            match stop {
                None => Ok((ReshapeEmit { stop: None, pads: 0, pad_stop: 0 }, counter)),
                Some(s) => {
                    let c = if s as usize >= self.split_dim {
                        counter + 1
                    } else {
                        counter
                    };
                    if c == self.chunk_size {
                        Ok((ReshapeEmit { stop: Some(s + 1), pads: 0, pad_stop: 0 }, 0))
                    } else {
                        Ok((ReshapeEmit { stop: Some(s), pads: 0, pad_stop: 0 }, c))
                    }
                },
            }
        }
    }

    /// The pad values that end the stream from the count `counter`.
    fn close_from(&self, counter: usize) -> (r: Result<(usize, StopType), ProtocolError>)
        requires
            counter < self.chunk_size,
        ensures
            r == reshape_close(self.cfg(), counter as nat),
    {
        if self.split_dim == 0 && 0 < counter {
            if self.pad_val.is_none() {
                Err(ProtocolError::MissingPad)
            } else if self.input_stream_rank != 0 {
                Err(ProtocolError::BadConfig)
            } else {
                let level: StopType = if self.add_outer_dim {
                    2
                } else {
                    1
                };
                Ok((self.chunk_size - counter, level))
            }
        } else {
            Ok((0, 0))
        }
    }

    /// Whether what is sent for the next element, which comes under the
    /// marker `stop`, depends on whether the input holds another element
    /// behind it: it does for the bare value that fills a chunk when the
    /// chunks form an outer dimension.
    pub fn needs_lookahead(&self, stop: Option<StopType>) -> (b: bool)
        requires
            self.wf(),
        ensures
            b == (self.cfg().split_dim == 0 && stop is None && self.counter() + 1 == self.cfg().chunk_size
                && self.cfg().add_outer_dim),
            !b ==> reshape_step(self.cfg(), self.counter(), stop, true) == reshape_step(
                self.cfg(),
                self.counter(),
                stop,
                false,
            ),
    {
        self.split_dim == 0 && stop.is_none() && self.counter + 1 == self.chunk_size && self.add_outer_dim
    }

    /// Takes note of one element received, with marker `stop`; `has_next`
    /// says whether the input holds another. Returns what to send for it.
    pub fn on_elem(&mut self, stop: Option<StopType>, has_next: bool) -> (r: Result<ReshapeEmit, ProtocolError>)
        requires
            old(self).wf(),
            stop matches Some(s) ==> s < u32::MAX,
        ensures
            final(self).wf(),
            final(self).cfg() == old(self).cfg(),
            final(self).pad() == old(self).pad(),
            match r {
                Ok(emit) => reshape_step(old(self).cfg(), old(self).counter(), stop, has_next) == Ok::<
                    (ReshapeEmit, nat),
                    ProtocolError,
                >((emit, final(self).counter())),
                Err(e) => reshape_step(old(self).cfg(), old(self).counter(), stop, has_next) == Err::<
                    (ReshapeEmit, nat),
                    ProtocolError,
                >(e) && final(self).counter() == old(self).counter(),
            },
    {
        match self.step_from(self.counter, stop, has_next) {
            Ok((emit, c)) => {
                self.counter = c;
                Ok(emit)
            },
            Err(e) => Err(e),
        }
    }

    /// The pad values to send when the input has ended: how many, and the
    /// stop level of the last.
    pub fn on_close(&self) -> (r: Result<(usize, StopType), ProtocolError>)
        requires
            self.wf(),
        ensures
            r == reshape_close(self.cfg(), self.counter()),
    {
        self.close_from(self.counter)
    }

    /// Appends `n` references to the pad value, bare except the last.
    fn push_pads<'a>(&'a self, out: &mut Vec<Elem<&'a InputType>>, n: usize, stop: StopType)
        requires
            n > 0 ==> self.pad() is Some,
        ensures
            borrowed_stream(final(out)@) == borrowed_stream(old(out)@) + pad_seq(self.pad(), n as nat, stop),
    {
        let ghost before = out@;
        if n == 0 {
            assert(borrowed_stream(out@) =~= borrowed_stream(before) + pad_seq(self.pad(), n as nat, stop));
            return ;
        }
        let p: &'a InputType = match &self.pad_val {
            Some(p) => p,
            None => vstd::pervasive::unreached(),
        };
        let mut k: usize = 0;
        while k < n
            invariant
                k <= n,
                n > 0,
                self.pad() == Some(*p),
                out.len() == before.len() + k,
                forall|j: int| 0 <= j < before.len() ==> out[j] == before[j],
                forall|j: int|
                    0 <= j < k ==> borrowed(#[trigger] out[before.len() + j]) == pad_seq(
                        self.pad(),
                        n as nat,
                        stop,
                    )[j],
            decreases n - k,
        {
            if k + 1 < n {
                out.push(Elem::Val(p));
            } else {
                out.push(Elem::ValStop(p, stop));
            }
            k += 1;
        }
        proof {
            let want = borrowed_stream(before) + pad_seq(self.pad(), n as nat, stop);
            assert forall|j: int| 0 <= j < out.len() implies borrowed_stream(out@)[j] == want[j] by {
                if j >= before.len() {
                    assert(borrowed(out[before.len() + (j - before.len())]) == pad_seq(
                        self.pad(),
                        n as nat,
                        stop,
                    )[j - before.len()]);
                }
            }
            assert(borrowed_stream(out@) =~= want);
        }
    }

    /// The whole output stream for the whole input stream, counted from the
    /// start of a chunk.
    pub fn run<'a>(&'a self, input: &'a Vec<Elem<InputType>>) -> (r: Result<Vec<Elem<&'a InputType>>, ProtocolError>)
        requires
            self.wf(),
            forall|i: int| 0 <= i < input.len() ==> (#[trigger] input[i]).level() < u32::MAX,
        ensures
            reshape_stream(self.cfg(), self.pad(), input@).is_result(r),
    {
        let mut out: Vec<Elem<&'a InputType>> = Vec::new();
        let mut counter: usize = 0;
        let mut i: usize = 0;
        let ghost total = reshape_stream(self.cfg(), self.pad(), input@);
        proof {
            lemma_after_nothing(total);
            assert(borrowed_stream(out@) =~= Seq::<Elem<InputType>>::empty());
        }
        while i < input.len()
            invariant
                i <= input.len(),
                self.chunk_size >= 1,
                counter < self.chunk_size,
                forall|k: int| 0 <= k < input.len() ==> (#[trigger] input[k]).level() < u32::MAX,
                total == reshape_stream(self.cfg(), self.pad(), input@),
                total == reshape_from(self.cfg(), self.pad(), input@, i as int, counter as nat).after(
                    borrowed_stream(out@),
                ),
            decreases input.len() - i,
        {
            let has_next = i + 1 < input.len();
            let stop = input[i].stop_marker();
            let ghost rest = reshape_from(self.cfg(), self.pad(), input@, i as int, counter as nat);
            assert(input[i as int].level() < u32::MAX);
            match self.step_from(counter, stop, has_next) {
                Ok((emit, c)) => {
                    let ghost before = borrowed_stream(out@);
                    let ghost next = reshape_from(self.cfg(), self.pad(), input@, i + 1, c as nat);
                    let ghost em = reshape_emitted(input[i as int].value(), emit, self.pad());
                    let e = Elem::from_stop(input[i].data(), emit.stop);
                    proof {
                        lemma_borrowed_push(out@, e);
                    }
                    out.push(e);
                    self.push_pads(&mut out, emit.pads, emit.pad_stop);
                    proof {
                        assert(rest == next.after(em));
                        assert(borrowed_stream(out@) =~= before + em);
                        lemma_after_after(next, before, em);
                    }
                    counter = c;
                },
                Err(e) => {
                    assert(rest == Run::<InputType>::fail(e));
                    return Err(e);
                },
            }
            i += 1;
        }
        match self.close_from(counter) {
            Ok((n, stop)) => {
                self.push_pads(&mut out, n, stop);
                Ok(out)
            },
            Err(e) => Err(e),
        }
    }
}

} // verus!
