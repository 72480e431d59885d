use vstd::prelude::*;

use super::{lemma_after_after, lemma_after_nothing, lemma_borrowed_push, ProtocolError, Run};
use crate::primitives::elem::{borrowed_stream, Elem, StopType};

verus! {

/// What to do with the current input element when the reference stream
/// gives an element with marker `ref_stop`: the marker to send the input
/// value with, which is the marker of the reference element, and whether to
/// go on to the next input element, which a reference stop of level `rank`
/// or above asks for.
pub open spec fn expand_step(rank: nat, ref_stop: Option<StopType>) -> (Option<StopType>, bool) {
    match ref_stop {
        None => (None, false),
        Some(rs) => (Some(rs), rs >= rank),
    }
}

/// What the end of the reference stream means while an input element is
/// current: a bare input value ends the run in order, one with a stop
/// marker still waits for its closing reference stop.
pub open spec fn expand_ref_closed(input_is_stop: bool) -> Option<ProtocolError> {
    if input_is_stop {
        Some(ProtocolError::ClosedEarly)
    } else {
        None
    }
}

/// The run of an expansion from input position `i` and reference position
/// `j` on.
pub open spec fn expand_from<T, R>(rank: nat, input: Seq<Elem<T>>, refs: Seq<Elem<R>>, i: int, j: int) -> Run<T>
    decreases refs.len() - j,
{
    if i < 0 || i >= input.len() {
        Run::done()
    } else if j < 0 || j >= refs.len() {
        Run { out: Seq::empty(), err: expand_ref_closed(input[i] is ValStop) }
    } else {
        let (stop, advance) = expand_step(rank, refs[j].stop());
        expand_from(
            rank,
            input,
            refs,
            if advance {
                i + 1
            } else {
                i
            },
            j + 1,
        ).after(seq![Elem::with_stop(input[i].value(), stop)])
    }
}

/// The run of an expansion over whole streams.
pub open spec fn expand_stream<T, R>(rank: nat, input: Seq<Elem<T>>, refs: Seq<Elem<R>>) -> Run<T> {
    expand_from(rank, input, refs, 0, 0)
}

/// Repeats every input element once per element of a reference stream,
/// until a reference stop of level `expand_rank` or above moves on to the
/// next input element.
pub struct ExpandRef {
    expand_rank: StopType,
}

impl ExpandRef {
    /// The reference stop level that ends the repetition of one element.
    pub closed spec fn rank(&self) -> nat {
        self.expand_rank as nat
    }

    pub fn new(expand_rank: StopType) -> (e: Self)
        ensures
            e.rank() == expand_rank,
    {
        ExpandRef { expand_rank }
    }

    /// What to do with the current input element for one reference element.
    pub fn step(&self, ref_stop: Option<StopType>) -> (r: (Option<StopType>, bool))
        ensures
            r == expand_step(self.rank(), ref_stop),
    {
        match ref_stop {
            None => (None, false),
            Some(rs) => (Some(rs), rs >= self.expand_rank),
        }
    }

    /// What the end of the reference stream means for the current input
    /// element.
    pub fn ref_closed(&self, input_is_stop: bool) -> (r: Option<ProtocolError>)
        ensures
            r == expand_ref_closed(input_is_stop),
    {
        if input_is_stop {
            Some(ProtocolError::ClosedEarly)
        } else {
            None
        }
    }

    /// The whole output stream for whole input and reference streams.
    pub fn run<'a, T, R>(&self, input: &'a Vec<Elem<T>>, refs: &Vec<Elem<R>>) -> (r: Result<
        Vec<Elem<&'a T>>,
        ProtocolError,
    >)
        ensures
            expand_stream(self.rank(), input@, refs@).is_result(r),
    {
        let mut out: Vec<Elem<&'a T>> = Vec::new();
        let mut i: usize = 0;
        let mut j: usize = 0;
        let ghost total = expand_stream(self.rank(), input@, refs@);
        proof {
            lemma_after_nothing(total);
            assert(borrowed_stream(out@) =~= Seq::<Elem<T>>::empty());
        }
        while i < input.len()
            invariant
                i <= input.len(),
                j <= refs.len(),
                total == expand_stream(self.rank(), input@, refs@),
                total == expand_from(self.rank(), input@, refs@, i as int, j as int).after(borrowed_stream(out@)),
            decreases refs.len() - j,
        {
            let input_is_stop = input[i].stop_marker().is_some();
            let ghost rest = expand_from(self.rank(), input@, refs@, i as int, j as int);
            if j >= refs.len() {
                return match self.ref_closed(input_is_stop) {
                    Some(e) => Err(e),
                    None => {
                        proof {
                            lemma_after_nothing(rest);
                            assert(borrowed_stream(out@) + Seq::<Elem<T>>::empty() =~= borrowed_stream(out@));
                        }
                        Ok(out)
                    },
                };
            }
            let (stop, advance) = self.step(refs[j].stop_marker());
            let ghost before = borrowed_stream(out@);
            let e = Elem::from_stop(input[i].data(), stop);
            proof {
                lemma_borrowed_push(out@, e);
                let next = expand_from(
                    self.rank(),
                    input@,
                    refs@,
                    if advance {
                        i + 1
                    } else {
                        i as int
                    },
                    j + 1,
                );
                let em = seq![Elem::with_stop(input[i as int].value(), stop)];
                assert(rest == next.after(em));
                assert(before.push(em[0]) =~= before + em);
                lemma_after_after(next, before, em);
            }
            out.push(e);
            if advance {
                i += 1;
            }
            j += 1;
        }
        proof {
            let rest = expand_from(self.rank(), input@, refs@, i as int, j as int);
            assert(rest == Run::<T>::done());
            assert(borrowed_stream(out@) + Seq::<Elem<T>>::empty() =~= borrowed_stream(out@));
        }
        Ok(out)
    }
}

} // verus!
