use vstd::prelude::*;

use super::ProtocolError;
use crate::memory::{load_cost, load_cycles, transfer_cost, transfer_cycles};
use crate::primitives::elem::{Bufferizable, Elem, StopType};
use crate::primitives::tile::Tile;

verus! {

/// The cycles charged for one invocation: the largest of the load, the
/// compute and the store cost.
pub open spec fn roofline_cost(load: nat, compute: nat, store: nat) -> nat {
    if load >= compute && load >= store {
        load
    } else if compute >= store {
        compute
    } else {
        store
    }
}

/// The largest of the load, the compute and the store cost.
pub fn roofline(load: u64, compute: u64, store: u64) -> (c: u64)
    ensures
        c == roofline_cost(load as nat, compute as nat, store as nat),
        c >= load && c >= compute && c >= store,
{
    if load >= compute && load >= store {
        load
    } else if compute >= store {
        compute
    } else {
        store
    }
}

/// The stop marker common to two elements that are read in step, or the
/// violation if they disagree.
pub open spec fn pair_stop_spec(a: Option<StopType>, b: Option<StopType>) -> Result<Option<StopType>, ProtocolError> {
    if a == b {
        Ok(a)
    } else {
        Err(ProtocolError::ShapeMismatch)
    }
}

/// What is wrong with two stop markers that are read in step: nothing
/// where they agree.
pub fn check_pair_stop(a: Option<StopType>, b: Option<StopType>) -> (e: Option<ProtocolError>)
    ensures
        e == if a == b {
            None
        } else {
            Some(ProtocolError::ShapeMismatch)
        },
{
    match (a, b) {
        (None, None) => None,
        (Some(x), Some(y)) => {
            if x == y {
                None
            } else {
                Some(ProtocolError::ShapeMismatch)
            }
        },
        _ => Some(ProtocolError::ShapeMismatch),
    }
}

/// The stop marker common to two elements that are read in step. The two
/// markers agree: `check_pair_stop` finds nothing wrong with them.
pub fn pair_stop(a: Option<StopType>, b: Option<StopType>) -> (r: Result<Option<StopType>, ProtocolError>)
    requires
        a == b,
    ensures
        r == pair_stop_spec(a, b),
{
    Ok(a)
}

/// What is wrong with the ends of two streams that are read in step:
/// nothing where both have ended or neither has.
pub fn check_pair_closed(closed1: bool, closed2: bool) -> (e: Option<ProtocolError>)
    ensures
        e == if closed1 == closed2 {
            None
        } else {
            Some(ProtocolError::ClosedEarly)
        },
{
    if closed1 == closed2 {
        None
    } else {
        Some(ProtocolError::ClosedEarly)
    }
}

/// What the ends of two streams that are read in step mean: `Ok(true)` when
/// both have ended, `Ok(false)` when neither has. The two streams end
/// together: `check_pair_closed` finds nothing wrong with them.
pub fn pair_closed(closed1: bool, closed2: bool) -> (r: Result<bool, ProtocolError>)
    requires
        closed1 == closed2,
    ensures
        r == Ok::<bool, ProtocolError>(closed1),
{
    Ok(closed1)
}

/// The first violation from position `i` on of two streams that are read in
/// step, if there is one.
pub open spec fn pairing_error<A, B>(s1: Seq<Elem<A>>, s2: Seq<Elem<B>>, i: int) -> Option<ProtocolError>
    decreases s1.len() - i,
{
    if i < 0 || (i >= s1.len() && i >= s2.len()) {
        None
    } else if i >= s1.len() || i >= s2.len() {
        Some(ProtocolError::ClosedEarly)
    } else if s1[i].stop() != s2[i].stop() {
        Some(ProtocolError::ShapeMismatch)
    } else {
        pairing_error(s1, s2, i + 1)
    }
}

/// The first violation of two streams that are read in step, if there is
/// one: a pair of stop markers that disagree, or one stream that ends
/// before the other.
pub fn check_pairing<A, B>(in1: &Vec<Elem<A>>, in2: &Vec<Elem<B>>) -> (e: Option<ProtocolError>)
    ensures
        e == pairing_error(in1@, in2@, 0),
{
    let mut i: usize = 0;
    loop
        invariant
            i <= in1.len(),
            i <= in2.len(),
            pairing_error(in1@, in2@, 0) == pairing_error(in1@, in2@, i as int),
        decreases in1.len() - i,
    {
        match check_pair_closed(i >= in1.len(), i >= in2.len()) {
            Some(e) => {
                return Some(e);
            },
            None => {},
        }
        if i >= in1.len() {
            return None;
        }
        match check_pair_stop(in1[i].stop_marker(), in2[i].stop_marker()) {
            Some(e) => {
                return Some(e);
            },
            None => {},
        }
        i += 1;
    }
}

/// A compute unit that combines two streams of tiles pair by pair.
pub struct BinaryMap {
    compute_bw: u64,
    write_back_mu: bool,
}

impl BinaryMap {
    /// The compute bandwidth, in operations per cycle.
    pub closed spec fn bw(&self) -> u64 {
        self.compute_bw
    }

    /// Whether the result is written to a memory unit.
    pub closed spec fn writes_back(&self) -> bool {
        self.write_back_mu
    }

    pub fn new(compute_bw: u64, write_back_mu: bool) -> (m: Self)
        ensures
            m.bw() == compute_bw,
            m.writes_back() == write_back_mu,
    {
        BinaryMap { compute_bw, write_back_mu }
    }

    /// The compute bandwidth to hand to the function.
    pub fn compute_bw(&self) -> (b: u64)
        ensures
            b == self.bw(),
    {
        self.compute_bw
    }

    /// The write-back flag to hand to the function.
    pub fn write_back_mu(&self) -> (b: bool)
        ensures
            b == self.writes_back(),
    {
        self.write_back_mu
    }

    /// The cycles of one invocation on the operands `tile1` and `tile2`
    /// whose function took `comp_cycles` and gave `out_tile`.
    pub fn cycles<A: Copy, B: Copy, O: Copy>(
        &self,
        tile1: &Tile<A>,
        tile2: &Tile<B>,
        comp_cycles: u64,
        out_tile: &Tile<O>,
    ) -> (c: u64)
        requires
            tile1.sized(),
            tile2.sized(),
            self.writes_back() ==> out_tile.sized(),
            tile1@.size_in_bytes() + tile2@.size_in_bytes() <= u64::MAX,
        ensures
            c == roofline_cost(
                load_cost(tile1.read_from_mu, tile1@.size_in_bytes()) + load_cost(
                    tile2.read_from_mu,
                    tile2@.size_in_bytes(),
                ),
                comp_cycles as nat,
                if self.writes_back() {
                    transfer_cost(out_tile@.size_in_bytes())
                } else {
                    0
                },
            ),
    {
        let load_cycle: u64 = load_cycles(tile1) + load_cycles(tile2);
        let store_cycles: u64 = if self.write_back_mu {
            transfer_cycles(out_tile)
        } else {
            0
        };
        roofline(load_cycle, comp_cycles, store_cycles)
    }

    /// The whole output stream for two whole input streams under the
    /// function `f`, and the cycles of every invocation.
    pub fn run<A: Copy, B: Copy, O: Copy, F: Fn(&Tile<A>, &Tile<B>, u64, bool) -> (u64, Tile<O>)>(
        &self,
        in1: &Vec<Elem<Tile<A>>>,
        in2: &Vec<Elem<Tile<B>>>,
        f: F,
    ) -> (r: Result<(Vec<Elem<Tile<O>>>, Vec<u64>), ProtocolError>)
        requires
            pairing_error(in1@, in2@, 0) is None,
            forall|i: int| 0 <= i < in1.len() ==> (#[trigger] in1[i]).value().sized(),
            forall|i: int| 0 <= i < in2.len() ==> (#[trigger] in2[i]).value().sized(),
            forall|i: int, j: int|
                0 <= i < in1.len() && 0 <= j < in2.len() ==> (#[trigger] in1[i]).value()@.size_in_bytes() + (
                #[trigger] in2[j]).value()@.size_in_bytes() <= u64::MAX,
            forall|i: int|
                0 <= i < in1.len() && i < in2.len() ==> #[trigger] f.requires(
                    (&in1[i].value(), &in2[i].value(), self.bw(), self.writes_back()),
                ),
            forall|i: int, out: (u64, Tile<O>)|
                0 <= i < in1.len() && i < in2.len() && #[trigger] f.ensures(
                    (&in1[i].value(), &in2[i].value(), self.bw(), self.writes_back()),
                    out,
                ) ==> out.1.sized(),
        ensures
            match r {
                Err(e) => pairing_error(in1@, in2@, 0) == Some(e),
                Ok((out, cycles)) => {
                    &&& pairing_error(in1@, in2@, 0) is None
                    &&& out.len() == in1.len()
                    &&& cycles.len() == in1.len()
                    &&& forall|i: int|
                        0 <= i < out.len() ==> {
                            &&& (#[trigger] out[i]).stop() == in1[i].stop()
                            &&& exists|c: u64|
                                {
                                    &&& f.ensures(
                                        (&in1[i].value(), &in2[i].value(), self.bw(), self.writes_back()),
                                        (c, out[i].value()),
                                    )
                                    &&& cycles[i] == roofline_cost(
                                        load_cost(in1[i].value().read_from_mu, in1[i].value()@.size_in_bytes())
                                            + load_cost(
                                            in2[i].value().read_from_mu,
                                            in2[i].value()@.size_in_bytes(),
                                        ),
                                        c as nat,
                                        if self.writes_back() {
                                            transfer_cost(out[i].value()@.size_in_bytes())
                                        } else {
                                            0
                                        },
                                    )
                                }
                        }
                },
            },
    {
        let mut out: Vec<Elem<Tile<O>>> = Vec::new();
        let mut cycles: Vec<u64> = Vec::new();
        let mut i: usize = 0;
        loop
            invariant
                i <= in1.len(),
                i <= in2.len(),
                out.len() == i,
                cycles.len() == i,
                pairing_error(in1@, in2@, 0) is None,
                pairing_error(in1@, in2@, 0) == pairing_error(in1@, in2@, i as int),
                forall|k: int| 0 <= k < in1.len() ==> (#[trigger] in1[k]).value().sized(),
                forall|k: int| 0 <= k < in2.len() ==> (#[trigger] in2[k]).value().sized(),
                forall|k: int, j: int|
                    0 <= k < in1.len() && 0 <= j < in2.len() ==> (#[trigger] in1[k]).value()@.size_in_bytes() + (
                    #[trigger] in2[j]).value()@.size_in_bytes() <= u64::MAX,
                forall|k: int|
                    0 <= k < in1.len() && k < in2.len() ==> #[trigger] f.requires(
                        (&in1[k].value(), &in2[k].value(), self.bw(), self.writes_back()),
                    ),
                forall|k: int, o: (u64, Tile<O>)|
                    0 <= k < in1.len() && k < in2.len() && #[trigger] f.ensures(
                        (&in1[k].value(), &in2[k].value(), self.bw(), self.writes_back()),
                        o,
                    ) ==> o.1.sized(),
                forall|k: int|
                    0 <= k < i ==> {
                        &&& (#[trigger] out[k]).stop() == in1[k].stop()
                        &&& exists|c: u64|
                            {
                                &&& f.ensures(
                                    (&in1[k].value(), &in2[k].value(), self.bw(), self.writes_back()),
                                    (c, out[k].value()),
                                )
                                &&& cycles[k] == roofline_cost(
                                    load_cost(in1[k].value().read_from_mu, in1[k].value()@.size_in_bytes())
                                        + load_cost(in2[k].value().read_from_mu, in2[k].value()@.size_in_bytes()),
                                    c as nat,
                                    if self.writes_back() {
                                        transfer_cost(out[k].value()@.size_in_bytes())
                                    } else {
                                        0
                                    },
                                )
                            }
                    },
            decreases in1.len() - i,
        {
            match pair_closed(i >= in1.len(), i >= in2.len()) {
                Err(e) => {
                    return Err(e);
                },
                Ok(true) => {
                    return Ok((out, cycles));
                },
                Ok(false) => {},
            }
            let stop = match pair_stop(in1[i].stop_marker(), in2[i].stop_marker()) {
                Ok(s) => s,
                Err(e) => {
                    return Err(e);
                },
            };
            let tile1 = in1[i].data();
            let tile2 = in2[i].data();
            assert(in1[i as int].value().sized() && in2[i as int].value().sized());
            assert(f.requires((&in1[i as int].value(), &in2[i as int].value(), self.bw(), self.writes_back())));
            let (comp_cycles, out_tile) = f(tile1, tile2, self.compute_bw, self.write_back_mu);
            let c = self.cycles(tile1, tile2, comp_cycles, &out_tile);
            let ghost prev_out = out@;
            let ghost prev_cycles = cycles@;
            out.push(Elem::from_stop(out_tile, stop));
            cycles.push(c);
            proof {
                assert forall|k: int| 0 <= k < i implies out[k] == prev_out[k] && cycles[k] == prev_cycles[k] by {}
                assert(f.ensures(
                    (&in1[i as int].value(), &in2[i as int].value(), self.bw(), self.writes_back()),
                    (comp_cycles, out[i as int].value()),
                ));
            }
            i += 1;
        }
    }
}

/// The parameters of a unary compute unit.
pub struct UnaryMapConfig {
    /// The compute bandwidth, in operations per cycle.
    pub compute_bw: u64,
    /// Whether the result is written to a memory unit.
    pub write_back_mu: bool,
}

/// A compute unit that maps a stream of tiles element by element.
pub struct UnaryMap {
    config: UnaryMapConfig,
}

impl UnaryMap {
    /// The parameters.
    pub closed spec fn cfg(&self) -> UnaryMapConfig {
        self.config
    }

    pub fn new(config: UnaryMapConfig) -> (m: Self)
        ensures
            m.cfg() == config,
    {
        UnaryMap { config }
    }

    /// The parameters, to hand to the function.
    pub fn config(&self) -> (c: &UnaryMapConfig)
        ensures
            *c == self.cfg(),
    {
        &self.config
    }

    /// The cycles of one invocation on `in_tile` whose function took
    /// `comp_cycles` and gave `out_tile`.
    pub fn cycles<T: Copy, OT: Copy>(&self, in_tile: &Tile<T>, comp_cycles: u64, out_tile: &Tile<OT>) -> (c: u64)
        requires
            in_tile.sized(),
            self.cfg().write_back_mu ==> out_tile.sized(),
        ensures
            c == roofline_cost(
                load_cost(in_tile.read_from_mu, in_tile@.size_in_bytes()),
                comp_cycles as nat,
                if self.cfg().write_back_mu {
                    transfer_cost(out_tile@.size_in_bytes())
                } else {
                    0
                },
            ),
    {
        let load = load_cycles(in_tile);
        let store_cycles: u64 = if self.config.write_back_mu {
            transfer_cycles(out_tile)
        } else {
            0
        };
        roofline(load, comp_cycles, store_cycles)
    }

    /// The whole output stream for the whole input stream under the
    /// function `f`, and the cycles of every invocation.
    pub fn run<T: Copy, OT: Copy, F: Fn(&Tile<T>, u64, bool) -> (u64, Tile<OT>)>(
        &self,
        input: &Vec<Elem<Tile<T>>>,
        f: F,
    ) -> (r: (Vec<Elem<Tile<OT>>>, Vec<u64>))
        requires
            forall|i: int| 0 <= i < input.len() ==> (#[trigger] input[i]).value().sized(),
            forall|i: int|
                0 <= i < input.len() ==> #[trigger] f.requires(
                    (&input[i].value(), self.cfg().compute_bw, self.cfg().write_back_mu),
                ),
            forall|i: int, out: (u64, Tile<OT>)|
                0 <= i < input.len() && #[trigger] f.ensures(
                    (&input[i].value(), self.cfg().compute_bw, self.cfg().write_back_mu),
                    out,
                ) ==> out.1.sized(),
        ensures
            r.0.len() == input.len(),
            r.1.len() == input.len(),
            forall|i: int|
                0 <= i < input.len() ==> {
                    &&& (#[trigger] r.0[i]).stop() == input[i].stop()
                    &&& exists|c: u64|
                        {
                            &&& f.ensures(
                                (&input[i].value(), self.cfg().compute_bw, self.cfg().write_back_mu),
                                (c, r.0[i].value()),
                            )
                            &&& r.1[i] == roofline_cost(
                                load_cost(input[i].value().read_from_mu, input[i].value()@.size_in_bytes()),
                                c as nat,
                                if self.cfg().write_back_mu {
                                    transfer_cost(r.0[i].value()@.size_in_bytes())
                                } else {
                                    0
                                },
                            )
                        }
                },
    {
        let mut out: Vec<Elem<Tile<OT>>> = Vec::new();
        let mut cycles: Vec<u64> = Vec::new();
        let mut i: usize = 0;
        while i < input.len()
            invariant
                i <= input.len(),
                out.len() == i,
                cycles.len() == i,
                forall|k: int| 0 <= k < input.len() ==> (#[trigger] input[k]).value().sized(),
                forall|k: int|
                    0 <= k < input.len() ==> #[trigger] f.requires(
                        (&input[k].value(), self.cfg().compute_bw, self.cfg().write_back_mu),
                    ),
                forall|k: int, o: (u64, Tile<OT>)|
                    0 <= k < input.len() && #[trigger] f.ensures(
                        (&input[k].value(), self.cfg().compute_bw, self.cfg().write_back_mu),
                        o,
                    ) ==> o.1.sized(),
                forall|k: int|
                    0 <= k < i ==> {
                        &&& (#[trigger] out[k]).stop() == input[k].stop()
                        &&& exists|c: u64|
                            {
                                &&& f.ensures(
                                    (&input[k].value(), self.cfg().compute_bw, self.cfg().write_back_mu),
                                    (c, out[k].value()),
                                )
                                &&& cycles[k] == roofline_cost(
                                    load_cost(input[k].value().read_from_mu, input[k].value()@.size_in_bytes()),
                                    c as nat,
                                    if self.cfg().write_back_mu {
                                        transfer_cost(out[k].value()@.size_in_bytes())
                                    } else {
                                        0
                                    },
                                )
                            }
                    },
            decreases input.len() - i,
        {
            let in_tile = input[i].data();
            assert(input[i as int].value().sized());
            assert(f.requires((&input[i as int].value(), self.cfg().compute_bw, self.cfg().write_back_mu)));
            let (comp_cycles, out_tile) = f(in_tile, self.config.compute_bw, self.config.write_back_mu);
            let c = self.cycles(in_tile, comp_cycles, &out_tile);
            let ghost prev_out = out@;
            let ghost prev_cycles = cycles@;
            out.push(Elem::from_stop(out_tile, input[i].stop_marker()));
            cycles.push(c);
            proof {
                assert forall|k: int| 0 <= k < i implies out[k] == prev_out[k] && cycles[k] == prev_cycles[k] by {}
                assert(f.ensures(
                    (&input[i as int].value(), self.cfg().compute_bw, self.cfg().write_back_mu),
                    (comp_cycles, out[i as int].value()),
                ));
            }
            i += 1;
        }
        (out, cycles)
    }
}

} // verus!
