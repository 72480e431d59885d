use vstd::prelude::*;

use crate::primitives::elem::{borrowed, borrowed_stream, Elem, StopType};

verus! {

/// The level that a stop marker of `level` gets under a promotion at
/// `rank`: the levels above `rank` rise by one, the others stay.
pub open spec fn promote_level(rank: nat, level: nat) -> nat {
    if level > rank {
        level + 1
    } else {
        level
    }
}

/// `promote_level` applied `n` times at the same rank.
pub open spec fn promote_times(rank: nat, n: nat, level: nat) -> nat
    decreases n,
{
    if n == 0 {
        level
    } else {
        promote_level(rank, promote_times(rank, (n - 1) as nat, level))
    }
}

/// The element that `e` becomes under a promotion at `rank`. A stop marker
/// goes by `promote_level`; a bare value gets a marker of level `1` at rank
/// `0` and stays bare at every other rank.
pub open spec fn promote_elem<T>(e: Elem<T>, rank: nat) -> Elem<T> {
    match e {
        Elem::Val(x) => if rank == 0 {
            Elem::ValStop(x, 1)
        } else {
            Elem::Val(x)
        },
        Elem::ValStop(x, s) => Elem::ValStop(x, promote_level(rank, s as nat) as u32),
    }
}

/// The stream that `s` becomes under a promotion at `rank`.
pub open spec fn promote_stream<T>(s: Seq<Elem<T>>, rank: nat) -> Seq<Elem<T>> {
    Seq::new(s.len(), |i: int| promote_elem(s[i], rank))
}

/// The stream that `s` becomes under `n` promotions at `rank`.
pub open spec fn promote_stream_times<T>(s: Seq<Elem<T>>, rank: nat, n: nat) -> Seq<Elem<T>>
    decreases n,
{
    if n == 0 {
        s
    } else {
        promote_stream(promote_stream_times(s, rank, (n - 1) as nat), rank)
    }
}

/// `n` promotions at one rank raise the levels above that rank by `n` and
/// leave the others.
pub proof fn lemma_promote_times(rank: nat, n: nat, level: nat)
    ensures
        promote_times(rank, n, level) == if level > rank {
            level + n
        } else {
            level
        },
    decreases n,
{
    if n > 0 {
        lemma_promote_times(rank, (n - 1) as nat, level);
    }
}

/// Raises by one the stop levels of a stream that lie above `promote_rank`;
/// at rank `0` every bare value becomes a group of its own.
pub struct Promote {
    promote_rank: StopType,
}

impl Promote {
    /// The rank above which the stop levels rise.
    pub closed spec fn rank(&self) -> nat {
        self.promote_rank as nat
    }

    pub fn new(promote_rank: StopType) -> (p: Self)
        ensures
            p.rank() == promote_rank,
    {
        Promote { promote_rank }
    }

    /// The element to send for the element `e` received.
    pub fn apply<T>(&self, e: Elem<T>) -> (out: Elem<T>)
        requires
            e.level() < u32::MAX,
        ensures
            out == promote_elem(e, self.rank()),
    {
        match e {
            Elem::Val(x) => {
                if self.promote_rank == 0 {
                    Elem::ValStop(x, 1)
                } else {
                    Elem::Val(x)
                }
            },
            Elem::ValStop(x, s) => {
                let new_stop_rank = if s > self.promote_rank {
                    s + 1
                } else {
                    s
                };
                Elem::ValStop(x, new_stop_rank)
            },
        }
    }

    /// The whole output stream for the whole input stream.
    pub fn run<'a, T>(&self, input: &'a Vec<Elem<T>>) -> (out: Vec<Elem<&'a T>>)
        requires
            forall|i: int| 0 <= i < input.len() ==> (#[trigger] input[i]).level() < u32::MAX,
        ensures
            borrowed_stream(out@) == promote_stream(input@, self.rank()),
    {
        let mut out: Vec<Elem<&'a T>> = Vec::with_capacity(input.len());
        let mut i: usize = 0;
        while i < input.len()
            invariant
                i <= input.len(),
                out.len() == i,
                forall|k: int| 0 <= k < input.len() ==> (#[trigger] input[k]).level() < u32::MAX,
                forall|k: int| 0 <= k < i ==> borrowed(#[trigger] out[k]) == promote_elem(input[k], self.rank()),
            decreases input.len() - i,
        {
            let e = input[i].as_ref();
            assert(e.level() == input[i as int].level());
            let o = self.apply(e);
            out.push(o);
            i += 1;
        }
        assert(borrowed_stream(out@) =~= promote_stream(input@, self.rank()));
        out
    }
}

} // verus!
