use vstd::prelude::*;

use super::partition::{borrowed_routes, FlatPartitionConfig, Routed};
use super::ProtocolError;
use crate::primitives::elem::{Elem, StopType};

verus! {

/// Whether a data element under the marker `stop` ends the group that is
/// sent to the current output.
pub open spec fn group_ends(rank: nat, stop: Option<StopType>) -> Result<bool, ProtocolError> {
    match stop {
        None => Ok(rank == 0),
        Some(l) => if l > rank {
            Err(ProtocolError::LevelAboveRank)
        } else {
            Ok(l == rank)
        },
    }
}

/// The output after `p` in the round.
pub open spec fn next_output(p: int, outputs: nat) -> int {
    if p + 1 >= outputs {
        0
    } else {
        p + 1
    }
}

/// The run of a parallelize from data position `i` on, output `p` being
/// served.
pub open spec fn parallelize_from<T>(rank: nat, outputs: nat, input: Seq<Elem<T>>, i: int, p: int) -> Routed<T>
    decreases input.len() - i,
{
    if i < 0 || i >= input.len() {
        Routed::done()
    } else {
        match group_ends(rank, input[i].stop()) {
            Ok(done) => parallelize_from(
                rank,
                outputs,
                input,
                i + 1,
                if done {
                    next_output(p, outputs)
                } else {
                    p
                },
            ).after(seq![(p as usize, input[i])]),
            Err(e) => Routed::fail(e),
        }
    }
}

/// Deals the groups of rank `partition_rank` of a stream out to the outputs
/// in turn. The stream has no stop above that rank.
pub struct Parallelize {
    partition_rank: StopType,
    config: FlatPartitionConfig,
    outputs: usize,
}

impl Parallelize {
    /// The rank of a group.
    pub closed spec fn rank(&self) -> nat {
        self.partition_rank as nat
    }

    /// The number of outputs.
    pub closed spec fn outputs(&self) -> nat {
        self.outputs as nat
    }

    /// The switch cost of every output.
    pub closed spec fn switch_cycles(&self) -> Seq<u64> {
        self.config.switch_cycles@
    }

    pub fn new(partition_rank: StopType, config: FlatPartitionConfig, outputs: usize) -> (p: Self)
        requires
            outputs >= 1,
            config.switch_cycles.len() >= outputs,
        ensures
            p.rank() == partition_rank,
            p.outputs() == outputs,
            p.switch_cycles() == config.switch_cycles@,
    {
        Parallelize { partition_rank, config, outputs }
    }

    /// The cycles by which an element sent to output `p` is stamped later
    /// than now.
    pub fn switch_delay(&self, p: usize) -> (d: u64)
        requires
            p < self.switch_cycles().len(),
        ensures
            d == self.switch_cycles()[p as int],
    {
        self.config.switch_cycles[p]
    }

    /// What is wrong with a data element under the marker `stop`: nothing
    /// unless its stop level is above the rank of a group.
    pub fn check_level(&self, stop: Option<StopType>) -> (e: Option<ProtocolError>)
        ensures
            e == match group_ends(self.rank(), stop) {
                Ok(_) => None,
                Err(v) => Some(v),
            },
    {
        match stop {
            None => None,
            Some(l) => {
                if l > self.partition_rank {
                    Some(ProtocolError::LevelAboveRank)
                } else {
                    None
                }
            },
        }
    }

    /// Whether a data element under the marker `stop` ends the group of the
    /// current output. The stop level is none above the rank of a group:
    /// `check_level` finds nothing wrong with it.
    pub fn step(&self, stop: Option<StopType>) -> (r: Result<bool, ProtocolError>)
        requires
            stop matches Some(l) ==> l <= self.rank(),
        ensures
            r == group_ends(self.rank(), stop),
    {
        match stop {
            None => Ok(self.partition_rank == 0),
            Some(l) => {
                if l > self.partition_rank {
                    Err(ProtocolError::LevelAboveRank)
                } else {
                    Ok(l == self.partition_rank)
                }
            },
        }
    }

    /// The output that follows `p` in the round.
    pub fn next(&self, p: usize) -> (n: usize)
        requires
            p < self.outputs(),
        ensures
            n == next_output(p as int, self.outputs()),
            n < self.outputs(),
    {
        if p + 1 >= self.outputs {
            0
        } else {
            p + 1
        }
    }

    /// Everything sent for the whole input stream, as pairs of output and
    /// element in the order of sending.
    pub fn run<'a, T>(&self, input: &'a Vec<Elem<T>>) -> (r: Result<Vec<(usize, Elem<&'a T>)>, ProtocolError>)
        requires
            self.outputs() >= 1,
            forall|i: int| 0 <= i < input.len() ==> (#[trigger] input[i]).level() <= self.rank(),
        ensures
            parallelize_from(self.rank(), self.outputs(), input@, 0, 0).is_result(r),
    {
        let mut out: Vec<(usize, Elem<&'a T>)> = Vec::with_capacity(input.len());
        let mut i: usize = 0;
        let mut p: usize = 0;
        let ghost total = parallelize_from(self.rank(), self.outputs(), input@, 0, 0);
        proof {
            assert(borrowed_routes(out@) =~= Seq::<(usize, Elem<T>)>::empty());
            assert(Seq::<(usize, Elem<T>)>::empty() + total.out =~= total.out);
        }
        while i < input.len()
            invariant
                i <= input.len(),
                p < self.outputs(),
                forall|k: int| 0 <= k < input.len() ==> (#[trigger] input[k]).level() <= self.rank(),
                total == parallelize_from(self.rank(), self.outputs(), input@, 0, 0),
                total == parallelize_from(self.rank(), self.outputs(), input@, i as int, p as int).after(
                    borrowed_routes(out@),
                ),
            decreases input.len() - i,
        {
            let ghost rest = parallelize_from(self.rank(), self.outputs(), input@, i as int, p as int);
            assert(input[i as int].level() <= self.rank());
            match self.step(input[i].stop_marker()) {
                Ok(done) => {
                    let ghost before = borrowed_routes(out@);
                    let e = input[i].as_ref();
                    let q = if done {
                        self.next(p)
                    } else {
                        p
                    };
                    proof {
                        let next = parallelize_from(self.rank(), self.outputs(), input@, i + 1, q as int);
                        let em = seq![(p, input[i as int])];
                        assert(rest == next.after(em));
                        assert(borrowed_routes(out@.push((p, e))) =~= before + em);
                        assert(before + (em + next.out) =~= (before + em) + next.out);
                    }
                    out.push((p, e));
                    p = q;
                },
                Err(e) => {
                    assert(rest == Routed::<T>::fail(e));
                    return Err(e);
                },
            }
            i += 1;
        }
        proof {
            let rest = parallelize_from(self.rank(), self.outputs(), input@, i as int, p as int);
            assert(rest == Routed::<T>::done());
            assert(borrowed_routes(out@) + Seq::<(usize, Elem<T>)>::empty() =~= borrowed_routes(out@));
        }
        Ok(out)
    }
}

} // verus!
