use vstd::prelude::*;

use super::map::{roofline, roofline_cost};
use crate::memory::{load_cost, load_cycles, transfer_cost, transfer_cycles};
use crate::primitives::elem::{Bufferizable, Elem, StopType};
use crate::primitives::tile::Tile;

verus! {

/// What an accumulating unit does with one input.
#[derive(Debug, Clone, Copy, PartialEq, Eq)]
pub enum AccumAction {
    /// Fold the input into the accumulator and send nothing.
    Fold,
    /// Fold the input, send the accumulator under this stop marker, and
    /// start over from a fresh accumulator.
    Emit(Option<StopType>),
}

/// What a unit that reduces the `rank` innermost dimensions does with an
/// input under the stop marker `stop`.
pub open spec fn accum_action(rank: nat, stop: Option<StopType>) -> AccumAction {
    match stop {
        None => AccumAction::Fold,
        Some(l) => if l < rank {
            AccumAction::Fold
        } else if l == rank {
            AccumAction::Emit(None)
        } else {
            AccumAction::Emit(Some((l - rank) as u32))
        },
    }
}

/// What a unit that reduces the `rank` innermost dimensions does with an
/// input under the stop marker `stop`.
pub fn action_for(rank: StopType, stop: Option<StopType>) -> (a: AccumAction)
    ensures
        a == accum_action(rank as nat, stop),
{
    match stop {
        None => AccumAction::Fold,
        Some(l) => {
            if l < rank {
                AccumAction::Fold
            } else if l == rank {
                AccumAction::Emit(None)
            } else {
                AccumAction::Emit(Some(l - rank))
            }
        },
    }
}

/// The parameters of an accumulating unit.
pub struct AccumConfig {
    /// The compute bandwidth, in operations per cycle.
    pub compute_bw: u64,
    /// Whether the result is written to a memory unit.
    pub write_back_mu: bool,
}

/// The cycles of one invocation of an accumulating unit: load against
/// compute while folding, and against the store of the fresh accumulator
/// too when the accumulator is sent.
pub open spec fn accum_cost(
    write_back_mu: bool,
    action: AccumAction,
    load: nat,
    compute: nat,
    fresh_bytes: nat,
) -> nat {
    match action {
        AccumAction::Fold => roofline_cost(load, compute, 0),
        AccumAction::Emit(_) => roofline_cost(
            load,
            compute,
            if write_back_mu {
                transfer_cost(fresh_bytes)
            } else {
                0
            },
        ),
    }
}

/// The state after the first `n` inputs under the folder `f` and the
/// accumulator constructor `init`: the accumulator is `acc`, the stream sent
/// so far is `outs`, and the cycles charged for the inputs are `cycles`.
pub open spec fn accum_prefix<T: Copy, OT: Copy, F: Fn(&Tile<T>, &Tile<OT>, u64, bool) -> (u64, Tile<OT>), I: Fn() -> Tile<OT>>(
    f: F,
    init: I,
    rank: nat,
    config: AccumConfig,
    input: Seq<Elem<Tile<T>>>,
    n: nat,
    acc: Tile<OT>,
    outs: Seq<Elem<Tile<OT>>>,
    cycles: Seq<u64>,
) -> bool
    decreases n,
{
    if n == 0 {
        init.ensures((), acc) && outs.len() == 0 && cycles.len() == 0
    } else if n > input.len() || cycles.len() != n {
        false
    } else {
        let e = input[n - 1];
        let action = accum_action(rank, e.stop());
        exists|prev: Tile<OT>, c: u64, t: Tile<OT>|
            {
                &&& f.ensures((&e.value(), &prev, config.compute_bw, config.write_back_mu), (c, t))
                &&& cycles[n - 1] == accum_cost(
                    config.write_back_mu,
                    action,
                    load_cost(e.value().read_from_mu, e.value()@.size_in_bytes()),
                    c as nat,
                    acc@.size_in_bytes(),
                )
                &&& match action {
                    AccumAction::Fold => acc == t && accum_prefix(
                        f,
                        init,
                        rank,
                        config,
                        input,
                        (n - 1) as nat,
                        prev,
                        outs,
                        cycles.drop_last(),
                    ),
                    AccumAction::Emit(s) => outs.len() > 0 && outs.last() == Elem::with_stop(t, s)
                        && init.ensures((), acc) && accum_prefix(
                        f,
                        init,
                        rank,
                        config,
                        input,
                        (n - 1) as nat,
                        prev,
                        outs.drop_last(),
                        cycles.drop_last(),
                    ),
                }
            }
    }
}

/// A compute unit that folds the `rank` innermost dimensions of a stream of
/// tiles into one accumulator tile each.
pub struct Accum {
    rank: StopType,
    config: AccumConfig,
}

impl Accum {
    /// The number of dimensions reduced.
    pub closed spec fn rank(&self) -> nat {
        self.rank as nat
    }

    /// The parameters.
    pub closed spec fn cfg(&self) -> AccumConfig {
        self.config
    }

    pub fn new(rank: StopType, config: AccumConfig) -> (a: Self)
        ensures
            a.rank() == rank,
            a.cfg() == config,
    {
        Accum { rank, config }
    }

    /// The parameters, to hand to the folder.
    pub fn config(&self) -> (c: &AccumConfig)
        ensures
            *c == self.cfg(),
    {
        &self.config
    }

    /// What to do with an input under the stop marker `stop`.
    pub fn action(&self, stop: Option<StopType>) -> (a: AccumAction)
        ensures
            a == accum_action(self.rank(), stop),
    {
        action_for(self.rank, stop)
    }

    /// The cycles of the invocation on `data` whose folder took
    /// `comp_cycles`; `fresh` is the accumulator that the next group starts
    /// from.
    pub fn cycles<T: Copy, OT: Copy>(&self, action: AccumAction, data: &Tile<T>, comp_cycles: u64, fresh: &Tile<OT>) -> (c:
        u64)
        requires
            data.sized(),
            action is Emit && self.cfg().write_back_mu ==> fresh.sized(),
        ensures
            c == accum_cost(
                self.cfg().write_back_mu,
                action,
                load_cost(data.read_from_mu, data@.size_in_bytes()),
                comp_cycles as nat,
                fresh@.size_in_bytes(),
            ),
    {
        let load = load_cycles(data);
        match action {
            AccumAction::Fold => roofline(load, comp_cycles, 0),
            AccumAction::Emit(_) => {
                let store_cycles: u64 = if self.config.write_back_mu {
                    transfer_cycles(fresh)
                } else {
                    0
                };
                roofline(load, comp_cycles, store_cycles)
            },
        }
    }

    /// The whole output stream for the whole input stream under the folder
    /// `f` and the accumulator constructor `init`, and the cycles of every
    /// invocation. The folder has to take every tile of the stream together
    /// with every accumulator that the tiles before it can have made.
    pub fn run<T: Copy, OT: Copy, F: Fn(&Tile<T>, &Tile<OT>, u64, bool) -> (u64, Tile<OT>), I: Fn() -> Tile<OT>>(
        &self,
        input: &Vec<Elem<Tile<T>>>,
        f: F,
        init: I,
    ) -> (r: (Vec<Elem<Tile<OT>>>, Vec<u64>))
        requires
            forall|i: int| 0 <= i < input.len() ==> (#[trigger] input[i]).value().sized(),
            init.requires(()),
            forall|n: nat, acc: Tile<OT>, outs: Seq<Elem<Tile<OT>>>, cycles: Seq<u64>|
                n < input.len() && #[trigger] accum_prefix(
                    f,
                    init,
                    self.rank(),
                    self.cfg(),
                    input@,
                    n,
                    acc,
                    outs,
                    cycles,
                ) ==> f.requires((&input[n as int].value(), &acc, self.cfg().compute_bw, self.cfg().write_back_mu)),
            forall|acc: Tile<OT>| #[trigger] init.ensures((), acc) ==> acc.sized(),
        ensures
            exists|acc: Tile<OT>| #[trigger]
                accum_prefix(f, init, self.rank(), self.cfg(), input@, input.len() as nat, acc, r.0@, r.1@),
    {
        let mut out: Vec<Elem<Tile<OT>>> = Vec::new();
        let mut cycles: Vec<u64> = Vec::new();
        let mut accumulator = init();
        let mut i: usize = 0;
        while i < input.len()
            invariant
                i <= input.len(),
                forall|k: int| 0 <= k < input.len() ==> (#[trigger] input[k]).value().sized(),
                init.requires(()),
                forall|n: nat, acc: Tile<OT>, outs: Seq<Elem<Tile<OT>>>, cycles: Seq<u64>|
                    n < input.len() && #[trigger] accum_prefix(
                        f,
                        init,
                        self.rank(),
                        self.cfg(),
                        input@,
                        n,
                        acc,
                        outs,
                        cycles,
                    ) ==> f.requires((&input[n as int].value(), &acc, self.cfg().compute_bw, self.cfg().write_back_mu)),
                forall|acc: Tile<OT>| #[trigger] init.ensures((), acc) ==> acc.sized(),
                accum_prefix(f, init, self.rank(), self.cfg(), input@, i as nat, accumulator, out@, cycles@),
            decreases input.len() - i,
        {
            let data = input[i].data();
            let action = self.action(input[i].stop_marker());
            assert(input[i as int].value().sized());
            let ghost prev_out = out@;
            let ghost prev_cycles = cycles@;
            let (comp_cycles, out_tile) = f(data, &accumulator, self.config.compute_bw, self.config.write_back_mu);
            match action {
                AccumAction::Fold => {
                    let c = self.cycles(action, data, comp_cycles, &out_tile);
                    accumulator = out_tile;
                    cycles.push(c);
                    proof {
                        assert(cycles@.drop_last() =~= prev_cycles);
                    }
                },
                AccumAction::Emit(s) => {
                    let fresh = init();
                    let c = self.cycles(action, data, comp_cycles, &fresh);
                    accumulator = fresh;
                    out.push(Elem::from_stop(out_tile, s));
                    cycles.push(c);
                    proof {
                        assert(cycles@.drop_last() =~= prev_cycles);
                        assert(out@.drop_last() =~= prev_out);
                    }
                },
            }
            i += 1;
        }
        let r = (out, cycles);
        assert(accum_prefix(f, init, self.rank(), self.cfg(), input@, input.len() as nat, accumulator, r.0@, r.1@));
        r
    }
}

} // verus!
