use vstd::prelude::*;

use crate::primitives::elem::{borrowed, borrowed_stream, Elem, StopType};

verus! {

/// The `n` copies sent for one element: bare values, and last a stop marker
/// one level above the element's own.
pub open spec fn repeat_one<T>(e: Elem<T>, n: nat) -> Seq<Elem<T>> {
    Seq::new(
        n,
        |j: int|
            if j < n - 1 {
                Elem::Val(e.value())
            } else {
                Elem::ValStop(e.value(), (e.level() + 1) as u32)
            },
    )
}

/// The stream in which every element of `s` is repeated `n` times as a new
/// innermost dimension.
pub open spec fn repeat_stream<T>(s: Seq<Elem<T>>, n: nat) -> Seq<Elem<T>>
    decreases s.len(),
{
    if s.len() == 0 {
        Seq::empty()
    } else {
        repeat_stream(s.drop_last(), n) + repeat_one(s.last(), n)
    }
}

/// What to send for one element, and what it costs.
pub struct RepeatStep {
    /// How many copies to send; copy `k` is stamped `k` cycles after now.
    pub copies: usize,
    /// The stop level of the last copy; the others are bare values.
    pub last_level: StopType,
    /// The cycles to advance by once all copies are sent.
    pub cycles: u64,
}

/// Repeats every element of a stream a fixed number of times, as a new
/// innermost dimension.
pub struct RepeatStatic {
    repeat_factor: usize,
}

impl RepeatStatic {
    /// The number of copies per element.
    pub closed spec fn factor(&self) -> nat {
        self.repeat_factor as nat
    }

    pub fn new(repeat_factor: usize) -> (r: Self)
        requires
            repeat_factor >= 1,
        ensures
            r.factor() == repeat_factor,
    {
        RepeatStatic { repeat_factor }
    }

    /// What to send for an element whose stop level is `level`.
    pub fn step(&self, level: StopType) -> (s: RepeatStep)
        requires
            level < u32::MAX,
        ensures
            s.copies == self.factor(),
            s.last_level == level + 1,
            s.cycles == self.factor(),
    {
        RepeatStep { copies: self.repeat_factor, last_level: level + 1, cycles: self.repeat_factor as u64 }
    }

    /// The whole output stream for the whole input stream.
    pub fn run<'a, T>(&self, input: &'a Vec<Elem<T>>) -> (out: Vec<Elem<&'a T>>)
        requires
            self.factor() >= 1,
            forall|i: int| 0 <= i < input.len() ==> (#[trigger] input[i]).level() < u32::MAX,
        ensures
            borrowed_stream(out@) == repeat_stream(input@, self.factor()),
    {
        let mut out: Vec<Elem<&'a T>> = Vec::new();
        let mut i: usize = 0;
        assert(input@.subrange(0, 0) =~= Seq::<Elem<T>>::empty());
        assert(borrowed_stream(out@) =~= repeat_stream(input@.subrange(0, 0), self.factor()));
        while i < input.len()
            invariant
                i <= input.len(),
                self.factor() >= 1,
                forall|k: int| 0 <= k < input.len() ==> (#[trigger] input[k]).level() < u32::MAX,
                borrowed_stream(out@) == repeat_stream(input@.subrange(0, i as int), self.factor()),
            decreases input.len() - i,
        {
            let ghost before = out@;
            let x: &'a T = input[i].data();
            let step = self.step(input[i].stop_level());
            let mut k: usize = 0;
            while k < step.copies
                invariant
                    k <= step.copies,
                    step.copies == self.factor(),
                    step.last_level == input[i as int].level() + 1,
                    *x == input[i as int].value(),
                    i < input.len(),
                    out.len() == before.len() + k,
                    forall|j: int| 0 <= j < before.len() ==> out[j] == before[j],
                    forall|j: int|
                        0 <= j < k ==> borrowed(#[trigger] out[before.len() + j]) == repeat_one(
                            input[i as int],
                            self.factor(),
                        )[j],
                decreases step.copies - k,
            {
                if k + 1 < step.copies {
                    out.push(Elem::Val(x));
                } else {
                    out.push(Elem::ValStop(x, step.last_level));
                }
                k += 1;
            }
            proof {
                let pre = input@.subrange(0, i as int);
                let cur = input@.subrange(0, i + 1);
                assert(cur.drop_last() =~= pre);
                assert(cur.last() == input[i as int]);
                let one = repeat_one(input[i as int], self.factor());
                assert(borrowed_stream(out@) =~= borrowed_stream(before) + one) by {
                    assert forall|j: int| 0 <= j < out.len() implies borrowed_stream(out@)[j] == (
                    borrowed_stream(before) + one)[j] by {
                        if j >= before.len() {
                            assert(borrowed(out[before.len() + (j - before.len())]) == one[j - before.len()]);
                        }
                    }
                }
            }
            i += 1;
        }
        assert(input@.subrange(0, input.len() as int) =~= input@);
        out
    }
}

} // verus!
