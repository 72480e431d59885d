use vstd::prelude::*;

use super::accum::{accum_action, accum_cost, action_for, AccumAction};
use super::map::{check_pair_closed, check_pair_stop, pair_stop_spec, pairing_error, roofline};
use super::ProtocolError;
use crate::memory::{load_cost, load_cycles, transfer_cycles};
use crate::primitives::elem::{Bufferizable, Elem, StopType};
use crate::primitives::tile::Tile;

verus! {

/// What to do with a pair of inputs under the stop markers `stop1` and
/// `stop2`: the markers have to agree, and their common level against the
/// rank decides between folding and sending.
pub open spec fn map_accum_action(rank: nat, stop1: Option<StopType>, stop2: Option<StopType>) -> Result<
    AccumAction,
    ProtocolError,
> {
    match pair_stop_spec(stop1, stop2) {
        Ok(s) => Ok(accum_action(rank, s)),
        Err(e) => Err(e),
    }
}

/// The parameters of an accumulating unit over pairs, as values.
pub struct MapAccumCfg {
    pub rank: nat,
    pub compute_bw: u64,
    pub write_back_mu: bool,
}

/// The state after the first `n` pairs under the function `f` and the
/// accumulator constructor `init`: the accumulator is `acc`, the stream
/// sent so far is `outs`, and the cycles charged for the pairs are
/// `cycles`.
pub open spec fn map_accum_prefix<T: Copy, OT: Copy, F: Fn(&Tile<T>, &Tile<T>, &Tile<OT>, u64, bool) -> (u64, Tile<OT>), I: Fn() -> Tile<OT>>(
    f: F,
    init: I,
    config: MapAccumCfg,
    in1: Seq<Elem<Tile<T>>>,
    in2: Seq<Elem<Tile<T>>>,
    n: nat,
    acc: Tile<OT>,
    outs: Seq<Elem<Tile<OT>>>,
    cycles: Seq<u64>,
) -> bool
    decreases n,
{
    if n == 0 {
        init.ensures((), acc) && outs.len() == 0 && cycles.len() == 0
    } else if n > in1.len() || n > in2.len() || cycles.len() != n {
        false
    } else {
        let e1 = in1[n - 1];
        let e2 = in2[n - 1];
        let action = accum_action(config.rank, e1.stop());
        e1.stop() == e2.stop() && exists|prev: Tile<OT>, c: u64, t: Tile<OT>|
            {
                &&& f.ensures((&e1.value(), &e2.value(), &prev, config.compute_bw, config.write_back_mu), (c, t))
                &&& cycles[n - 1] == accum_cost(
                    config.write_back_mu,
                    action,
                    load_cost(e1.value().read_from_mu, e1.value()@.size_in_bytes()) + load_cost(
                        e2.value().read_from_mu,
                        e2.value()@.size_in_bytes(),
                    ),
                    c as nat,
                    acc@.size_in_bytes(),
                )
                &&& match action {
                    AccumAction::Fold => acc == t && map_accum_prefix(
                        f,
                        init,
                        config,
                        in1,
                        in2,
                        (n - 1) as nat,
                        prev,
                        outs,
                        cycles.drop_last(),
                    ),
                    AccumAction::Emit(s) => outs.len() > 0 && outs.last() == Elem::with_stop(t, s)
                        && init.ensures((), acc) && map_accum_prefix(
                        f,
                        init,
                        config,
                        in1,
                        in2,
                        (n - 1) as nat,
                        prev,
                        outs.drop_last(),
                        cycles.drop_last(),
                    ),
                }
            }
    }
}

/// A compute unit that combines two streams of tiles pair by pair into an
/// accumulator, which it sends and renews at every stop of level `rank` or
/// above: a matrix product along a reduction axis.
pub struct BinaryMapAccum {
    rank: StopType,
    compute_bw: u64,
    write_back_mu: bool,
}

impl BinaryMapAccum {
    /// The number of dimensions reduced.
    pub closed spec fn rank(&self) -> nat {
        self.rank as nat
    }

    /// The compute bandwidth, in operations per cycle.
    pub closed spec fn bw(&self) -> u64 {
        self.compute_bw
    }

    /// Whether the result is written to a memory unit.
    pub closed spec fn writes_back(&self) -> bool {
        self.write_back_mu
    }

    pub fn new(rank: StopType, compute_bw: u64, write_back_mu: bool) -> (m: Self)
        ensures
            m.rank() == rank,
            m.bw() == compute_bw,
            m.writes_back() == write_back_mu,
    {
        BinaryMapAccum { rank, compute_bw, write_back_mu }
    }

    /// The compute bandwidth to hand to the function.
    pub fn compute_bw(&self) -> (b: u64)
        ensures
            b == self.bw(),
    {
        self.compute_bw
    }

    /// The write-back flag to hand to the function.
    pub fn write_back_mu(&self) -> (b: bool)
        ensures
            b == self.writes_back(),
    {
        self.write_back_mu
    }

    /// What to do with a pair of inputs under the given stop markers.
    pub fn action(&self, stop1: Option<StopType>, stop2: Option<StopType>) -> (r: Result<AccumAction, ProtocolError>)
        ensures
            r == map_accum_action(self.rank(), stop1, stop2),
    {
        match check_pair_stop(stop1, stop2) {
            None => Ok(action_for(self.rank, stop1)),
            Some(e) => Err(e),
        }
    }

    /// The parameters as values.
    pub open spec fn cfg(&self) -> MapAccumCfg {
        MapAccumCfg { rank: self.rank(), compute_bw: self.bw(), write_back_mu: self.writes_back() }
    }

    /// The whole output stream for two whole input streams under the
    /// function `f` and the accumulator constructor `init`, and the cycles
    /// of every invocation; or the first violation of the two streams
    /// against each other.
    pub fn run<T: Copy, OT: Copy, F: Fn(&Tile<T>, &Tile<T>, &Tile<OT>, u64, bool) -> (u64, Tile<OT>), I: Fn() -> Tile<OT>>(
        &self,
        in1: &Vec<Elem<Tile<T>>>,
        in2: &Vec<Elem<Tile<T>>>,
        f: F,
        init: I,
    ) -> (r: Result<(Vec<Elem<Tile<OT>>>, Vec<u64>), ProtocolError>)
        requires
            forall|i: int| 0 <= i < in1.len() ==> (#[trigger] in1[i]).value().sized(),
            forall|i: int| 0 <= i < in2.len() ==> (#[trigger] in2[i]).value().sized(),
            forall|i: int, j: int|
                0 <= i < in1.len() && 0 <= j < in2.len() ==> (#[trigger] in1[i]).value()@.size_in_bytes() + (
                #[trigger] in2[j]).value()@.size_in_bytes() <= u64::MAX,
            init.requires(()),
            forall|n: nat, acc: Tile<OT>, outs: Seq<Elem<Tile<OT>>>, cycles: Seq<u64>|
                n < in1.len() && n < in2.len() && #[trigger] map_accum_prefix(
                    f,
                    init,
                    self.cfg(),
                    in1@,
                    in2@,
                    n,
                    acc,
                    outs,
                    cycles,
                ) ==> f.requires((&in1[n as int].value(), &in2[n as int].value(), &acc, self.bw(), self.writes_back())),
            forall|acc: Tile<OT>| #[trigger] init.ensures((), acc) ==> acc.sized(),
        ensures
            r matches Err(e) ==> pairing_error(in1@, in2@, 0) == Some(e),
            r is Ok ==> pairing_error(in1@, in2@, 0) is None,
            r matches Ok(sent) ==> exists|acc: Tile<OT>| #[trigger]
                map_accum_prefix(f, init, self.cfg(), in1@, in2@, in1.len() as nat, acc, sent.0@, sent.1@),
    {
        let mut out: Vec<Elem<Tile<OT>>> = Vec::new();
        let mut cycles: Vec<u64> = Vec::new();
        let mut accumulator = init();
        let mut i: usize = 0;
        loop
            invariant
                i <= in1.len(),
                i <= in2.len(),
                pairing_error(in1@, in2@, 0) == pairing_error(in1@, in2@, i as int),
                forall|k: int| 0 <= k < in1.len() ==> (#[trigger] in1[k]).value().sized(),
                forall|k: int| 0 <= k < in2.len() ==> (#[trigger] in2[k]).value().sized(),
                forall|k: int, j: int|
                    0 <= k < in1.len() && 0 <= j < in2.len() ==> (#[trigger] in1[k]).value()@.size_in_bytes() + (
                    #[trigger] in2[j]).value()@.size_in_bytes() <= u64::MAX,
                init.requires(()),
                forall|n: nat, acc: Tile<OT>, outs: Seq<Elem<Tile<OT>>>, cycles: Seq<u64>|
                    n < in1.len() && n < in2.len() && #[trigger] map_accum_prefix(
                        f,
                        init,
                        self.cfg(),
                        in1@,
                        in2@,
                        n,
                        acc,
                        outs,
                        cycles,
                    ) ==> f.requires((&in1[n as int].value(), &in2[n as int].value(), &acc, self.bw(), self.writes_back())),
                forall|acc: Tile<OT>| #[trigger] init.ensures((), acc) ==> acc.sized(),
                map_accum_prefix(f, init, self.cfg(), in1@, in2@, i as nat, accumulator, out@, cycles@),
            decreases in1.len() - i,
        {
            match check_pair_closed(i >= in1.len(), i >= in2.len()) {
                Some(e) => {
                    return Err(e);
                },
                None => {},
            }
            match i >= in1.len() {
                true => {
                    let res: Result<(Vec<Elem<Tile<OT>>>, Vec<u64>), ProtocolError> = Ok((out, cycles));
                    assert(res matches Ok(sent) && map_accum_prefix(
                        f,
                        init,
                        self.cfg(),
                        in1@,
                        in2@,
                        in1.len() as nat,
                        accumulator,
                        sent.0@,
                        sent.1@,
                    ));
                    return res;
                },
                false => {},
            }
            let action = match self.action(in1[i].stop_marker(), in2[i].stop_marker()) {
                Ok(a) => a,
                Err(e) => {
                    return Err(e);
                },
            };
            let data1 = in1[i].data();
            let data2 = in2[i].data();
            assert(in1[i as int].value().sized() && in2[i as int].value().sized());
            let ghost prev_out = out@;
            let ghost prev_cycles = cycles@;
            let (comp_cycles, out_tile) = f(data1, data2, &accumulator, self.compute_bw, self.write_back_mu);
            match action {
                AccumAction::Fold => {
                    let c = self.cycles(action, data1, data2, comp_cycles, &out_tile);
                    accumulator = out_tile;
                    cycles.push(c);
                    proof {
                        assert(cycles@.drop_last() =~= prev_cycles);
                    }
                },
                AccumAction::Emit(s) => {
                    let fresh = init();
                    let c = self.cycles(action, data1, data2, comp_cycles, &fresh);
                    accumulator = fresh;
                    out.push(Elem::from_stop(out_tile, s));
                    cycles.push(c);
                    proof {
                        assert(cycles@.drop_last() =~= prev_cycles);
                        assert(out@.drop_last() =~= prev_out);
                    }
                },
            }
            i += 1;
        }
    }

    /// The cycles of the invocation on `data1` and `data2` whose function
    /// took `comp_cycles`; `fresh` is the accumulator that the next group
    /// starts from.
    pub fn cycles<T: Copy, OT: Copy>(
        &self,
        action: AccumAction,
        data1: &Tile<T>,
        data2: &Tile<T>,
        comp_cycles: u64,
        fresh: &Tile<OT>,
    ) -> (c: u64)
        requires
            data1.sized(),
            data2.sized(),
            data1@.size_in_bytes() + data2@.size_in_bytes() <= u64::MAX,
            action is Emit && self.writes_back() ==> fresh.sized(),
        ensures
            c == accum_cost(
                self.writes_back(),
                action,
                load_cost(data1.read_from_mu, data1@.size_in_bytes()) + load_cost(
                    data2.read_from_mu,
                    data2@.size_in_bytes(),
                ),
                comp_cycles as nat,
                fresh@.size_in_bytes(),
            ),
    {
        let load: u64 = load_cycles(data1) + load_cycles(data2);
        match action {
            AccumAction::Fold => roofline(load, comp_cycles, 0),
            AccumAction::Emit(_) => {
                let store_cycles: u64 = if self.write_back_mu {
                    transfer_cycles(fresh)
                } else {
                    0
                };
                roofline(load, comp_cycles, store_cycles)
            },
        }
    }
}

} // verus!
