use vstd::prelude::*;

use super::ProtocolError;
use crate::memory::{load_cost, load_cycles, transfer_cost, transfer_cycles};
use crate::primitives::elem::{borrowed, Bufferizable, Elem, StopType};
use crate::primitives::select::SelectAdapter;

verus! {

/// The stop marker that stands for the level `level`: none for `0`.
pub open spec fn level_marker(level: nat) -> Option<StopType> {
    if level == 0 {
        None
    } else {
        Some(level as u32)
    }
}

/// The stop level that the data stream has to show where a selector with
/// marker `sel_stop` ends its group: the selector's level above the
/// partition rank. A bare selector expects nothing.
pub open spec fn expected_level(rank: nat, sel_stop: Option<StopType>) -> Option<nat> {
    match sel_stop {
        None => None,
        Some(s) => Some(s as nat + rank),
    }
}

/// What to do with a data element under the marker `stop` while a group is
/// routed: the marker to send it with, and whether it ends the group. Under
/// a selector that expects the level `e`, a stop of that level ends the
/// group and is sent at the partition rank, and a stop below the partition
/// rank is an inner one of the group and passes as it is.
pub open spec fn route_step(rank: nat, expected: Option<nat>, stop: Option<StopType>) -> Result<
    (Option<StopType>, bool),
    ProtocolError,
> {
    match stop {
        None => Ok((None, rank == 0)),
        Some(l) => match expected {
            Some(e) => if l == e {
                Ok((level_marker(rank), true))
            } else if l < rank {
                Ok((level_marker(l as nat), false))
            } else {
                Err(ProtocolError::SelectorMismatch)
            },
            None => if l > rank {
                Err(ProtocolError::LevelAboveRank)
            } else {
                Ok((level_marker(l as nat), l == rank))
            },
        },
    }
}

/// Every output that the selector names exists.
pub open spec fn valid_targets(sel: Seq<usize>, outputs: nat) -> bool {
    forall|k: int| 0 <= k < sel.len() ==> #[trigger] sel[k] < outputs
}

/// One element sent to every output that the selector names, in the
/// selector's order.
pub open spec fn fan<T>(sel: Seq<usize>, e: Elem<T>) -> Seq<(usize, Elem<T>)> {
    Seq::new(sel.len(), |k: int| (sel[k], e))
}

/// What a routing operator sent, as pairs of output and element in the
/// order of sending, and the violation that ended the run, if one did.
pub struct Routed<T> {
    pub out: Seq<(usize, Elem<T>)>,
    pub err: Option<ProtocolError>,
}

impl<T> Routed<T> {
    /// A run that sent nothing more and ended in order.
    pub open spec fn done() -> Routed<T> {
        Routed { out: Seq::empty(), err: None }
    }

    /// A run that sent nothing more and ended on `e`.
    pub open spec fn fail(e: ProtocolError) -> Routed<T> {
        Routed { out: Seq::empty(), err: Some(e) }
    }

    /// The run that first sends `pre` and then goes on as `self`.
    pub open spec fn after(self, pre: Seq<(usize, Elem<T>)>) -> Routed<T> {
        Routed { out: pre + self.out, err: self.err }
    }

    /// Whether a result over borrowed payloads says what the run says.
    pub open spec fn is_result(self, r: Result<Vec<(usize, Elem<&T>)>, ProtocolError>) -> bool {
        match r {
            Ok(v) => self.err is None && borrowed_routes(v@) == self.out,
            Err(e) => self.err == Some(e),
        }
    }
}

/// The routed elements that routed references stand for.
pub open spec fn borrowed_routes<T>(s: Seq<(usize, Elem<&T>)>) -> Seq<(usize, Elem<T>)> {
    Seq::new(s.len(), |i: int| (s[i].0, borrowed(s[i].1)))
}

/// The stream that output `p` receives from what was sent.
pub open spec fn project<T>(routed: Seq<(usize, Elem<T>)>, p: nat) -> Seq<Elem<T>>
    decreases routed.len(),
{
    if routed.len() == 0 {
        Seq::empty()
    } else if routed.last().0 == p {
        project(routed.drop_last(), p).push(routed.last().1)
    } else {
        project(routed.drop_last(), p)
    }
}

/// What an output receives from two runs of sending is what it receives
/// from the first and then from the second.
pub proof fn lemma_project_add<T>(a: Seq<(usize, Elem<T>)>, b: Seq<(usize, Elem<T>)>, p: nat)
    ensures
        project(a + b, p) == project(a, p) + project(b, p),
    decreases b.len(),
{
    if b.len() == 0 {
        assert(a + b =~= a);
        assert(project(a, p) + project(b, p) =~= project(a, p));
    } else {
        lemma_project_add(a, b.drop_last(), p);
        assert((a + b).drop_last() =~= a + b.drop_last());
        assert((a + b).last() == b.last());
        if b.last().0 == p {
            assert(project(a, p) + project(b, p) =~= (project(a, p) + project(b.drop_last(), p)).push(b.last().1));
        }
    }
}

/// The run of a partition from data position `i` on, selector `j` being
/// served.
pub open spec fn partition_from<T, S: SelectAdapter>(
    rank: nat,
    outputs: nat,
    input: Seq<Elem<T>>,
    sels: Seq<Elem<S>>,
    i: int,
    j: int,
) -> Routed<T>
    decreases input.len() - i,
{
    if j < 0 || j >= sels.len() {
        Routed::done()
    } else if !valid_targets(sels[j].value().spec_sel_vec(), outputs) {
        Routed::fail(ProtocolError::BadConfig)
    } else if i < 0 || i >= input.len() {
        Routed::fail(ProtocolError::ClosedEarly)
    } else {
        match route_step(rank, expected_level(rank, sels[j].stop()), input[i].stop()) {
            Ok((stop, done)) => partition_from(
                rank,
                outputs,
                input,
                sels,
                i + 1,
                if done {
                    j + 1
                } else {
                    j
                },
            ).after(fan(sels[j].value().spec_sel_vec(), Elem::with_stop(input[i].value(), stop))),
            Err(e) => Routed::fail(e),
        }
    }
}

/// The run of a partition over whole streams.
pub open spec fn partition_stream<T, S: SelectAdapter>(
    rank: nat,
    outputs: nat,
    input: Seq<Elem<T>>,
    sels: Seq<Elem<S>>,
) -> Routed<T> {
    partition_from(rank, outputs, input, sels, 0, 0)
}

/// The largest switch cost among the outputs that the selector names.
pub open spec fn max_switch(switch_cycles: Seq<u64>, sel: Seq<usize>) -> nat
    decreases sel.len(),
{
    if sel.len() == 0 {
        0
    } else {
        let rest = max_switch(switch_cycles, sel.drop_last());
        let last = sel.last();
        if 0 <= last < switch_cycles.len() && switch_cycles[last as int] > rest {
            switch_cycles[last as int] as nat
        } else {
            rest
        }
    }
}

/// The switch cost of every output, and whether outputs are written to a
/// memory unit.
pub struct FlatPartitionConfig {
    pub switch_cycles: Vec<u64>,
    pub write_back_mu: bool,
}

/// Routes the groups of a stream to the outputs that a selector stream
/// names, one selector per group of rank `partition_rank`.
pub struct FlatPartition {
    partition_rank: StopType,
    config: FlatPartitionConfig,
    outputs: usize,
}

impl FlatPartition {
    /// The rank of a group.
    pub closed spec fn rank(&self) -> nat {
        self.partition_rank as nat
    }

    /// The number of outputs.
    pub closed spec fn outputs(&self) -> nat {
        self.outputs as nat
    }

    /// The switch cost of every output.
    pub closed spec fn switch_cycles(&self) -> Seq<u64> {
        self.config.switch_cycles@
    }

    /// Whether outputs are written to a memory unit; the flag that every
    /// element sent carries as `read_from_mu`.
    pub closed spec fn writes_back(&self) -> bool {
        self.config.write_back_mu
    }

    pub fn new(partition_rank: StopType, config: FlatPartitionConfig, outputs: usize) -> (p: Self)
        ensures
            p.rank() == partition_rank,
            p.outputs() == outputs,
            p.switch_cycles() == config.switch_cycles@,
            p.writes_back() == config.write_back_mu,
    {
        FlatPartition { partition_rank, config, outputs }
    }

    /// The flag to set on every element sent.
    pub fn write_back_mu(&self) -> (b: bool)
        ensures
            b == self.writes_back(),
    {
        self.config.write_back_mu
    }

    /// The cycles charged for a selector or a data element before it is
    /// taken from its stream.
    pub fn load_cycles<D: Bufferizable>(&self, data: &D) -> (c: u64)
        requires
            data.sized(),
        ensures
            c == load_cost(data.spec_read_from_mu(), data.spec_size_in_bytes()),
    {
        load_cycles(data)
    }

    /// Whether every output that the selector names exists.
    pub fn check_targets(&self, select_vec: &Vec<usize>) -> (ok: bool)
        ensures
            ok == valid_targets(select_vec@, self.outputs()),
    {
        let mut k: usize = 0;
        while k < select_vec.len()
            invariant
                k <= select_vec.len(),
                forall|j: int| 0 <= j < k ==> #[trigger] select_vec[j] < self.outputs(),
            decreases select_vec.len() - k,
        {
            if select_vec[k] >= self.outputs {
                return false;
            }
            k += 1;
        }
        true
    }

    /// The cycles charged for sending one element to the outputs that the
    /// selector names: the largest switch cost among them, and the transfer
    /// to a memory unit if outputs are written back.
    pub fn write_cycles<D: Bufferizable>(&self, select_vec: &Vec<usize>, data: &D) -> (c: u64)
        requires
            data.sized(),
            max_switch(self.switch_cycles(), select_vec@) + transfer_cost(data.spec_size_in_bytes()) <= u64::MAX,
        ensures
            c == max_switch(self.switch_cycles(), select_vec@) + if self.writes_back() {
                transfer_cost(data.spec_size_in_bytes())
            } else {
                0
            },
    {
        let mut write_cycle: u64 = 0;
        let mut k: usize = 0;
        assert(select_vec@.subrange(0, 0) =~= Seq::<usize>::empty());
        while k < select_vec.len()
            invariant
                k <= select_vec.len(),
                write_cycle == max_switch(self.switch_cycles(), select_vec@.subrange(0, k as int)),
            decreases select_vec.len() - k,
        {
            let expert_idx = select_vec[k];
            assert(select_vec@.subrange(0, k + 1).drop_last() =~= select_vec@.subrange(0, k as int));
            if expert_idx < self.config.switch_cycles.len() && self.config.switch_cycles[expert_idx] > write_cycle {
                write_cycle = self.config.switch_cycles[expert_idx];
            }
            k += 1;
        }
        assert(select_vec@.subrange(0, select_vec.len() as int) =~= select_vec@);
        if self.config.write_back_mu {
            write_cycle = write_cycle + transfer_cycles(data);
        }
        write_cycle
    }

    /// The stop level that the data stream has to show at the end of the
    /// group of a selector with marker `sel_stop`.
    pub fn expected(&self, sel_stop: Option<StopType>) -> (e: Option<u64>)
        ensures
            match e {
                Some(v) => expected_level(self.rank(), sel_stop) == Some(v as nat),
                None => expected_level(self.rank(), sel_stop) is None,
            },
    {
        match sel_stop {
            None => None,
            Some(s) => Some(s as u64 + self.partition_rank as u64),
        }
    }

    /// What to do with a data element under the marker `stop`: the marker
    /// to send it with, and whether it ends the group.
    pub fn route(&self, expected: Option<u64>, stop: Option<StopType>) -> (r: Result<
        (Option<StopType>, bool),
        ProtocolError,
    >)
        ensures
            r == route_step(
                self.rank(),
                match expected {
                    Some(v) => Some(v as nat),
                    None => None,
                },
                stop,
            ),
    {
        match stop {
            None => Ok((None, self.partition_rank == 0)),
            Some(l) => {
                let (out_level, done) = match expected {
                    Some(e) => {
                        if e == l as u64 {
                            (self.partition_rank, true)
                        } else if l < self.partition_rank {
                            (l, false)
                        } else {
                            return Err(ProtocolError::SelectorMismatch);
                        }
                    },
                    None => {
                        if l > self.partition_rank {
                            return Err(ProtocolError::LevelAboveRank);
                        }
                        (l, l == self.partition_rank)
                    },
                };
                let marker = if out_level == 0 {
                    None
                } else {
                    Some(out_level)
                };
                Ok((marker, done))
            },
        }
    }

    /// Everything sent for whole data and selector streams, as pairs of
    /// output and element in the order of sending.
    pub fn run<'a, T, S: SelectAdapter>(&self, input: &'a Vec<Elem<T>>, sels: &Vec<Elem<S>>) -> (r: Result<
        Vec<(usize, Elem<&'a T>)>,
        ProtocolError,
    >)
        ensures
            partition_stream(self.rank(), self.outputs(), input@, sels@).is_result(r),
    {
        let mut out: Vec<(usize, Elem<&'a T>)> = Vec::new();
        let mut i: usize = 0;
        let mut j: usize = 0;
        let ghost total = partition_stream(self.rank(), self.outputs(), input@, sels@);
        proof {
            assert(borrowed_routes(out@) =~= Seq::<(usize, Elem<T>)>::empty());
            assert(Seq::<(usize, Elem<T>)>::empty() + total.out =~= total.out);
        }
        while j < sels.len()
            invariant
                i <= input.len(),
                j <= sels.len(),
                total == partition_stream(self.rank(), self.outputs(), input@, sels@),
                total == partition_from(self.rank(), self.outputs(), input@, sels@, i as int, j as int).after(
                    borrowed_routes(out@),
                ),
            decreases input.len() - i, sels.len() - j,
        {
            let ghost rest = partition_from(self.rank(), self.outputs(), input@, sels@, i as int, j as int);
            let select_vec = sels[j].data().to_sel_vec();
            if !self.check_targets(&select_vec) {
                assert(rest == Routed::<T>::fail(ProtocolError::BadConfig));
                return Err(ProtocolError::BadConfig);
            }
            if i >= input.len() {
                assert(rest == Routed::<T>::fail(ProtocolError::ClosedEarly));
                return Err(ProtocolError::ClosedEarly);
            }
            let expected = self.expected(sels[j].stop_marker());
            match self.route(expected, input[i].stop_marker()) {
                Ok((stop, done)) => {
                    let ghost before = out@;
                    let ghost em = fan(select_vec@, Elem::with_stop(input[i as int].value(), stop));
                    let mut k: usize = 0;
                    while k < select_vec.len()
                        invariant
                            k <= select_vec.len(),
                            i < input.len(),
                            em == fan(select_vec@, Elem::with_stop(input[i as int].value(), stop)),
                            out.len() == before.len() + k,
                            forall|m: int| 0 <= m < before.len() ==> out[m] == before[m],
                            forall|m: int|
                                0 <= m < k ==> (#[trigger] out[before.len() + m]).0 == em[m].0 && borrowed(
                                    out[before.len() + m].1,
                                ) == em[m].1,
                        decreases select_vec.len() - k,
                    {
                        out.push((select_vec[k], Elem::from_stop(input[i].data(), stop)));
                        k += 1;
                    }
                    proof {
                        let next = partition_from(
                            self.rank(),
                            self.outputs(),
                            input@,
                            sels@,
                            i + 1,
                            if done {
                                j + 1
                            } else {
                                j as int
                            },
                        );
                        assert(rest == next.after(em));
                        let want = borrowed_routes(before) + em;
                        assert forall|m: int| 0 <= m < out.len() implies borrowed_routes(out@)[m] == want[m] by {
                            if m >= before.len() {
                                let d = m - before.len();
                                assert(out[before.len() + d].0 == em[d].0);
                            }
                        }
                        assert(borrowed_routes(out@) =~= want);
                        assert(borrowed_routes(before) + (em + next.out) =~= (borrowed_routes(before) + em)
                            + next.out);
                    }
                    i += 1;
                    if done {
                        j += 1;
                    }
                },
                Err(e) => {
                    assert(rest == Routed::<T>::fail(e));
                    return Err(e);
                },
            }
        }
        proof {
            let rest = partition_from(self.rank(), self.outputs(), input@, sels@, i as int, j as int);
            assert(rest == Routed::<T>::done());
            assert(borrowed_routes(out@) + Seq::<(usize, Elem<T>)>::empty() =~= borrowed_routes(out@));
        }
        Ok(out)
    }
}

/// The streams that the outputs `0..outputs` receive from what was sent.
pub fn expert_streams<'a, T>(routed: &Vec<(usize, Elem<&'a T>)>, outputs: usize) -> (out: Vec<Vec<Elem<&'a T>>>)
    ensures
        out.len() == outputs,
        forall|p: int|
            0 <= p < outputs ==> crate::primitives::elem::borrowed_stream((#[trigger] out[p])@) == project(
                borrowed_routes(routed@),
                p as nat,
            ),
{
    let mut out: Vec<Vec<Elem<&'a T>>> = Vec::with_capacity(outputs);
    let mut p: usize = 0;
    while p < outputs
        invariant
            p <= outputs,
            out.len() == p,
            forall|q: int|
                0 <= q < p ==> crate::primitives::elem::borrowed_stream((#[trigger] out[q])@) == project(
                    borrowed_routes(routed@),
                    q as nat,
                ),
        decreases outputs - p,
    {
        let mut stream: Vec<Elem<&'a T>> = Vec::new();
        let mut k: usize = 0;
        let ghost all = borrowed_routes(routed@);
        proof {
            assert(all.subrange(0, 0) =~= Seq::<(usize, Elem<T>)>::empty());
            assert(crate::primitives::elem::borrowed_stream(stream@) =~= Seq::<Elem<T>>::empty());
        }
        while k < routed.len()
            invariant
                k <= routed.len(),
                all == borrowed_routes(routed@),
                crate::primitives::elem::borrowed_stream(stream@) == project(all.subrange(0, k as int), p as nat),
            decreases routed.len() - k,
        {
            proof {
                let cur = all.subrange(0, k + 1);
                assert(cur.drop_last() =~= all.subrange(0, k as int));
                assert(cur.last() == all[k as int]);
            }
            if routed[k].0 == p {
                let e = routed[k].1;
                proof {
                    super::lemma_borrowed_push(stream@, e);
                }
                stream.push(e);
            }
            k += 1;
        }
        assert(all.subrange(0, routed.len() as int) =~= all);
        let ghost prev = out@;
        out.push(stream);
        assert forall|q: int| 0 <= q < p implies out[q] == prev[q] by {}
        p += 1;
    }
    out
}

} // verus!
