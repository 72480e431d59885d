use vstd::prelude::*;

use super::partition::valid_targets;
use super::{lemma_after_after, lemma_after_nothing, lemma_borrowed_push, ProtocolError, Run};
use crate::memory::{load_cost, load_cycles, transfer_cost, transfer_cycles};
use crate::primitives::elem::{borrowed, borrowed_stream, Bufferizable, Elem, StopType};
use crate::primitives::select::SelectAdapter;

verus! {

/// `order` with `x` put behind the last entry whose key is not above the
/// key of `x`.
pub open spec fn insert_by_key(order: Seq<usize>, keys: Seq<u64>, x: usize) -> Seq<usize>
    decreases order.len(),
{
    if order.len() == 0 {
        seq![x]
    } else if keys[order.last() as int] <= keys[x as int] {
        order.push(x)
    } else {
        insert_by_key(order.drop_last(), keys, x).push(order.last())
    }
}

/// The positions `0..n` in ascending order of their keys, positions of equal
/// key in ascending order: the order in which inputs that arrived at the
/// times `keys` are served.
pub open spec fn arrival_order(keys: Seq<u64>, n: nat) -> Seq<usize>
    decreases n,
{
    if n == 0 {
        Seq::empty()
    } else {
        insert_by_key(arrival_order(keys, (n - 1) as nat), keys, (n - 1) as usize)
    }
}

/// Inserting adds one entry, and keeps every entry below a bound that `x`
/// is below too.
pub proof fn lemma_insert_by_key(order: Seq<usize>, keys: Seq<u64>, x: usize, m: nat)
    requires
        x < m,
        forall|k: int| 0 <= k < order.len() ==> #[trigger] order[k] < m,
    ensures
        insert_by_key(order, keys, x).len() == order.len() + 1,
        forall|k: int| 0 <= k < order.len() + 1 ==> #[trigger] insert_by_key(order, keys, x)[k] < m,
    decreases order.len(),
{
    if order.len() > 0 && !(keys[order.last() as int] <= keys[x as int]) {
        let rest = order.drop_last();
        assert forall|k: int| 0 <= k < rest.len() implies #[trigger] rest[k] < m by {
            assert(rest[k] == order[k]);
        }
        lemma_insert_by_key(rest, keys, x, m);
    }
}

/// The order of service lists `n` positions, each below `n`.
pub proof fn lemma_arrival_order(keys: Seq<u64>, n: nat)
    requires
        n <= usize::MAX,
    ensures
        arrival_order(keys, n).len() == n,
        forall|k: int| 0 <= k < n ==> #[trigger] arrival_order(keys, n)[k] < n,
    decreases n,
{
    if n > 0 {
        lemma_arrival_order(keys, (n - 1) as nat);
        lemma_insert_by_key(arrival_order(keys, (n - 1) as nat), keys, (n - 1) as usize, n);
    }
}

/// Whether position `x` is served before position `y`: its key is lower, or
/// the keys are equal and `x` is the lower position.
pub open spec fn served_before(keys: Seq<u64>, x: usize, y: usize) -> bool {
    keys[x as int] < keys[y as int] || (keys[x as int] == keys[y as int] && x < y)
}

/// Every entry is served before the entries behind it.
pub open spec fn in_service_order(order: Seq<usize>, keys: Seq<u64>) -> bool {
    forall|a: int, b: int| 0 <= a < b < order.len() ==> served_before(keys, #[trigger] order[a], #[trigger] order[b])
}

/// Inserting a position above all listed ones keeps the order of service,
/// and lists nothing but the listed positions and the new one.
pub proof fn lemma_insert_keeps_order(order: Seq<usize>, keys: Seq<u64>, x: usize)
    requires
        in_service_order(order, keys),
        forall|k: int| 0 <= k < order.len() ==> #[trigger] order[k] < x,
    ensures
        in_service_order(insert_by_key(order, keys, x), keys),
        insert_by_key(order, keys, x).len() == order.len() + 1,
        forall|k: int|
            0 <= k < order.len() + 1 ==> #[trigger] insert_by_key(order, keys, x)[k] == x || order.contains(
                insert_by_key(order, keys, x)[k],
            ),
    decreases order.len(),
{
    let r = insert_by_key(order, keys, x);
    if order.len() == 0 {
    } else if keys[order.last() as int] <= keys[x as int] {
        assert forall|a: int, b: int| 0 <= a < b < r.len() implies served_before(
            keys,
            #[trigger] r[a],
            #[trigger] r[b],
        ) by {
            if b == order.len() {
                if a < order.len() - 1 {
                    assert(served_before(keys, order[a], order[order.len() - 1]));
                }
                assert(order[a] < x);
            } else {
                assert(served_before(keys, order[a], order[b]));
            }
        }
        assert forall|k: int| 0 <= k < order.len() + 1 implies #[trigger] r[k] == x || order.contains(r[k]) by {
            if k < order.len() {
                assert(order[k] == r[k]);
            }
        }
    } else {
        let rest = order.drop_last();
        let last = order.last();
        assert(in_service_order(rest, keys)) by {
            assert forall|a: int, b: int| 0 <= a < b < rest.len() implies served_before(
                keys,
                #[trigger] rest[a],
                #[trigger] rest[b],
            ) by {
                assert(served_before(keys, order[a], order[b]));
            }
        }
        assert forall|k: int| 0 <= k < rest.len() implies #[trigger] rest[k] < x by {
            assert(rest[k] == order[k]);
        }
        lemma_insert_keeps_order(rest, keys, x);
        let inner = insert_by_key(rest, keys, x);
        assert forall|k: int| 0 <= k < order.len() + 1 implies #[trigger] r[k] == x || order.contains(r[k]) by {
            if k < inner.len() {
                assert(r[k] == inner[k]);
                if inner[k] != x {
                    assert(rest.contains(inner[k]));
                    let j = choose|j: int| 0 <= j < rest.len() && rest[j] == inner[k];
                    assert(order[j] == inner[k]);
                }
            } else {
                assert(order[order.len() - 1] == r[k]);
            }
        }
        assert forall|a: int, b: int| 0 <= a < b < r.len() implies served_before(
            keys,
            #[trigger] r[a],
            #[trigger] r[b],
        ) by {
            if b == inner.len() {
                assert(r[a] == inner[a]);
                if inner[a] == x {
                } else {
                    assert(rest.contains(inner[a]));
                    let j = choose|j: int| 0 <= j < rest.len() && rest[j] == inner[a];
                    assert(served_before(keys, order[j], order[order.len() - 1]));
                }
            } else {
                assert(served_before(keys, inner[a], inner[b]));
            }
        }
    }
}

/// The order of service is fixed by the arrival times alone: it goes by
/// ascending time, and positions of equal time are served in ascending
/// order of position. The same arrival times give the same order.
pub proof fn lemma_arrival_order_sorted(keys: Seq<u64>, n: nat)
    requires
        n <= usize::MAX,
    ensures
        in_service_order(arrival_order(keys, n), keys),
    decreases n,
{
    if n > 0 {
        lemma_arrival_order_sorted(keys, (n - 1) as nat);
        lemma_arrival_order(keys, (n - 1) as nat);
        lemma_insert_keeps_order(arrival_order(keys, (n - 1) as nat), keys, (n - 1) as usize);
    }
}

/// Computes the order of service for the arrival times `keys`.
pub fn order_by_arrival(keys: &Vec<u64>) -> (order: Vec<usize>)
    ensures
        order@ == arrival_order(keys@, keys.len() as nat),
{
    let mut order: Vec<usize> = Vec::with_capacity(keys.len());
    let mut n: usize = 0;
    while n < keys.len()
        invariant
            n <= keys.len(),
            order@ == arrival_order(keys@, n as nat),
        decreases keys.len() - n,
    {
        proof {
            lemma_arrival_order(keys@, n as nat);
        }
        let ghost before = order@;
        let mut pos: usize = order.len();
        proof {
            assert(before.subrange(0, pos as int) =~= before);
            assert(insert_by_key(before, keys@, n) + before.subrange(pos as int, before.len() as int)
                =~= insert_by_key(before, keys@, n));
        }
        while pos > 0 && keys[order[pos - 1]] > keys[n]
            invariant
                pos <= order.len(),
                n < keys.len(),
                order@ == before,
                forall|k: int| 0 <= k < before.len() ==> #[trigger] before[k] < n,
                insert_by_key(before, keys@, n) == insert_by_key(before.subrange(0, pos as int), keys@, n)
                    + before.subrange(pos as int, before.len() as int),
            decreases pos,
        {
            proof {
                let cur = before.subrange(0, pos as int);
                assert(cur.last() == before[pos - 1]);
                assert(cur.drop_last() =~= before.subrange(0, pos - 1));
                assert(insert_by_key(cur, keys@, n) == insert_by_key(cur.drop_last(), keys@, n).push(cur.last()));
                assert(insert_by_key(cur.drop_last(), keys@, n).push(cur.last()) + before.subrange(
                    pos as int,
                    before.len() as int,
                ) =~= insert_by_key(cur.drop_last(), keys@, n) + before.subrange(pos - 1, before.len() as int));
            }
            pos -= 1;
        }
        proof {
            let cur = before.subrange(0, pos as int);
            if pos > 0 {
                assert(cur.last() == before[pos - 1]);
            }
            assert(insert_by_key(cur, keys@, n) == cur.push(n));
            assert(before.subrange(0, before.len() as int) =~= before);
            assert(before.insert(pos as int, n) =~= cur.push(n) + before.subrange(pos as int, before.len() as int));
        }
        order.insert(pos, n);
        n += 1;
    }
    order
}

/// The position behind the group that starts at position `c` of the stream:
/// behind the first bare value if groups have rank `0`, else behind the
/// first stop of level `rank` or above. `None` if the stream ends before.
pub open spec fn drain_end<T>(rank: nat, s: Seq<Elem<T>>, c: int) -> Option<int>
    decreases s.len() - c,
{
    if c < 0 || c >= s.len() {
        None
    } else {
        match s[c].stop() {
            None => if rank == 0 {
                Some(c + 1)
            } else {
                drain_end(rank, s, c + 1)
            },
            Some(l) => if l >= rank {
                Some(c + 1)
            } else {
                drain_end(rank, s, c + 1)
            },
        }
    }
}

/// The stop marker sent for an element of a group that came under the
/// marker `stop`. The group of the input that is served last for a selector
/// ends the selector's group: its closing stop is raised by one and by the
/// selector's own level `additional`.
pub open spec fn reassemble_stop(rank: nat, additional: nat, is_last: bool, stop: Option<StopType>) -> Option<
    StopType,
> {
    match stop {
        None => if rank == 0 && is_last {
            Some((1 + additional) as u32)
        } else {
            None
        },
        Some(l) => if rank == 0 {
            if is_last {
                Some((l + additional + 1) as u32)
            } else {
                None
            }
        } else if is_last && l >= rank {
            Some((l + additional + 1) as u32)
        } else {
            Some(l)
        },
    }
}

/// The element sent for the element `e` of a group.
pub open spec fn reassemble_elem<T>(rank: nat, additional: nat, is_last: bool, e: Elem<T>) -> Elem<T> {
    Elem::with_stop(e.value(), reassemble_stop(rank, additional, is_last, e.stop()))
}

/// The elements sent for the positions `c..end` of one input.
pub open spec fn group_out<T>(rank: nat, additional: nat, is_last: bool, s: Seq<Elem<T>>, c: int, end: int) -> Seq<
    Elem<T>,
> {
    Seq::new((end - c) as nat, |k: int| reassemble_elem(rank, additional, is_last, s[c + k]))
}

/// What serving a selector has come to: the stream sent, how far every
/// input is read, and the violation that ended it, if one did.
pub struct Served<T> {
    pub out: Seq<Elem<T>>,
    pub cursors: Seq<int>,
    pub err: Option<ProtocolError>,
}

/// The state after the first `q` inputs in the order `order` were served
/// for the selector that names the inputs `sel`.
pub open spec fn serve_upto<T>(
    rank: nat,
    inputs: Seq<Seq<Elem<T>>>,
    sel: Seq<usize>,
    additional: nat,
    order: Seq<usize>,
    cursors: Seq<int>,
    q: nat,
) -> Served<T>
    decreases q,
{
    if q == 0 {
        Served { out: Seq::empty(), cursors, err: None }
    } else {
        let prev = serve_upto(rank, inputs, sel, additional, order, cursors, (q - 1) as nat);
        if prev.err is Some {
            prev
        } else {
            let p = sel[order[q - 1] as int] as int;
            let c = prev.cursors[p];
            match drain_end(rank, inputs[p], c) {
                None => Served { err: Some(ProtocolError::ClosedEarly), ..prev },
                Some(end) => Served {
                    out: prev.out + group_out(rank, additional, q == sel.len(), inputs[p], c, end),
                    cursors: prev.cursors.update(p, end),
                    err: None,
                },
            }
        }
    }
}

/// The arrival times of the elements that the inputs named by `sel` show
/// next.
pub open spec fn head_arrivals(arrivals: Seq<Seq<u64>>, sel: Seq<usize>, cursors: Seq<int>) -> Seq<u64> {
    Seq::new(sel.len(), |k: int| arrivals[sel[k] as int][cursors[sel[k] as int]])
}

/// Every input named by `sel` shows an element.
pub open spec fn heads_present<T>(inputs: Seq<Seq<Elem<T>>>, sel: Seq<usize>, cursors: Seq<int>) -> bool {
    forall|k: int| 0 <= k < sel.len() ==> cursors[#[trigger] sel[k] as int] < inputs[sel[k] as int].len()
}

/// The additional rank that a selector with marker `sel_stop` gives to the
/// stop that closes its group.
pub open spec fn additional_rank(sel_stop: Option<StopType>) -> nat {
    match sel_stop {
        None => 0,
        Some(s) => s as nat,
    }
}

/// The run of a reassemble from selector `j` on, the inputs being read as
/// far as `cursors` say.
pub open spec fn reassemble_from<T, S: SelectAdapter>(
    rank: nat,
    inputs: Seq<Seq<Elem<T>>>,
    arrivals: Seq<Seq<u64>>,
    sels: Seq<Elem<S>>,
    j: int,
    cursors: Seq<int>,
) -> Run<T>
    decreases sels.len() - j,
{
    if j < 0 || j >= sels.len() {
        Run::done()
    } else {
        let sel = sels[j].value().spec_sel_vec();
        if !valid_targets(sel, inputs.len()) {
            Run::fail(ProtocolError::BadConfig)
        } else if sel.len() == 0 || !heads_present(inputs, sel, cursors) {
            Run::fail(ProtocolError::ClosedEarly)
        } else {
            let order = arrival_order(head_arrivals(arrivals, sel, cursors), sel.len());
            let served = serve_upto(
                rank,
                inputs,
                sel,
                additional_rank(sels[j].stop()),
                order,
                cursors,
                sel.len(),
            );
            match served.err {
                Some(e) => Run::fail(e),
                None => reassemble_from(rank, inputs, arrivals, sels, j + 1, served.cursors).after(served.out),
            }
        }
    }
}

/// The run of a reassemble over whole streams.
pub open spec fn reassemble_stream<T, S: SelectAdapter>(
    rank: nat,
    inputs: Seq<Seq<Elem<T>>>,
    arrivals: Seq<Seq<u64>>,
    sels: Seq<Elem<S>>,
) -> Run<T> {
    reassemble_from(rank, inputs, arrivals, sels, 0, Seq::new(inputs.len(), |p: int| 0int))
}

/// The input streams as sequences.
pub open spec fn stream_views<T>(inputs: Seq<Vec<Elem<T>>>) -> Seq<Seq<Elem<T>>> {
    Seq::new(inputs.len(), |p: int| inputs[p]@)
}

/// The arrival times as sequences.
pub open spec fn arrival_views(arrivals: Seq<Vec<u64>>) -> Seq<Seq<u64>> {
    Seq::new(arrivals.len(), |p: int| arrivals[p]@)
}

/// The switch cost of every input, and whether the output is written to a
/// memory unit.
pub struct FlatReassembleConfig {
    pub switch_cycles: Vec<u64>,
    pub write_back_mu: bool,
}

/// Gathers the groups that a partition routed to several pipelines back
/// into one stream: for every selector, one group of rank `reassemble_rank`
/// from every input that it names, in the order in which the inputs arrive.
pub struct FlatReassemble {
    reassemble_rank: StopType,
    config: FlatReassembleConfig,
}

impl FlatReassemble {
    /// The rank of a group.
    pub closed spec fn rank(&self) -> nat {
        self.reassemble_rank as nat
    }

    /// The switch cost of every input.
    pub closed spec fn switch_cycles(&self) -> Seq<u64> {
        self.config.switch_cycles@
    }

    /// Whether the output is written to a memory unit; the flag that every
    /// element sent carries as `read_from_mu`.
    pub closed spec fn writes_back(&self) -> bool {
        self.config.write_back_mu
    }

    pub fn new(reassemble_rank: StopType, config: FlatReassembleConfig) -> (r: Self)
        ensures
            r.rank() == reassemble_rank,
            r.switch_cycles() == config.switch_cycles@,
            r.writes_back() == config.write_back_mu,
    {
        FlatReassemble { reassemble_rank, config }
    }

    /// The flag to set on every element sent.
    pub fn write_back_mu(&self) -> (b: bool)
        ensures
            b == self.writes_back(),
    {
        self.config.write_back_mu
    }

    /// The cycle that the clock is advanced to, if it is earlier, before an
    /// element of input `stream_idx` is taken that arrived at
    /// `data_arrive_time`: the arrival, the switch cost of the input, and
    /// the load of the element.
    pub fn ready_time<D: Bufferizable>(&self, data_arrive_time: u64, data: &D, stream_idx: usize) -> (t: u64)
        requires
            data.sized(),
            stream_idx < self.switch_cycles().len(),
            data_arrive_time + self.switch_cycles()[stream_idx as int] + data.spec_size_in_bytes() <= u64::MAX,
        ensures
            t == data_arrive_time + self.switch_cycles()[stream_idx as int] + load_cost(
                data.spec_read_from_mu(),
                data.spec_size_in_bytes(),
            ),
    {
        let load_cycle: u64 = self.config.switch_cycles[stream_idx] + load_cycles(data);
        data_arrive_time + load_cycle
    }

    /// The cycles charged for writing one element back.
    pub fn writeback_cycles<D: Bufferizable>(&self, data: &D) -> (c: u64)
        requires
            data.sized(),
        ensures
            c == if self.writes_back() {
                transfer_cost(data.spec_size_in_bytes())
            } else {
                0
            },
    {
        if self.config.write_back_mu {
            transfer_cycles(data)
        } else {
            0
        }
    }

    /// The stop marker to send an element with, and whether the element
    /// ends the group of its input. `additional` is the level of the
    /// selector, `is_last` says whether the input is the last one served
    /// for the selector.
    pub fn step(&self, additional: StopType, is_last: bool, stop: Option<StopType>) -> (r: (
        Option<StopType>,
        bool,
    ))
        requires
            match stop {
                Some(l) => l + additional + 1 <= u32::MAX,
                None => additional + 1 <= u32::MAX,
            },
        ensures
            r.0 == reassemble_stop(self.rank(), additional as nat, is_last, stop),
            r.1 == match stop {
                None => self.rank() == 0,
                Some(l) => l >= self.rank(),
            },
    {
        match stop {
            None => {
                if self.reassemble_rank == 0 && is_last {
                    (Some(1 + additional), true)
                } else {
                    (None, self.reassemble_rank == 0)
                }
            },
            Some(level) => {
                if self.reassemble_rank == 0 {
                    if is_last {
                        (Some(level + additional + 1), true)
                    } else {
                        (None, true)
                    }
                } else if is_last && level >= self.reassemble_rank {
                    (Some(level + additional + 1), true)
                } else {
                    (Some(level), level >= self.reassemble_rank)
                }
            },
        }
    }

    /// The whole output stream for whole input and selector streams;
    /// `arrivals` holds the arrival time of every input element.
    pub fn run<'a, T, S: SelectAdapter>(
        &self,
        inputs: &'a Vec<Vec<Elem<T>>>,
        arrivals: &Vec<Vec<u64>>,
        sels: &Vec<Elem<S>>,
    ) -> (r: Result<Vec<Elem<&'a T>>, ProtocolError>)
        requires
            arrivals.len() == inputs.len(),
            forall|p: int| 0 <= p < inputs.len() ==> (#[trigger] arrivals[p]).len() == inputs[p].len(),
            forall|p: int, k: int, j: int|
                0 <= p < inputs.len() && 0 <= k < inputs[p].len() && 0 <= j < sels.len() ==> (
                #[trigger] inputs[p][k]).level() + (#[trigger] sels[j]).level() + 1 <= u32::MAX,
        ensures
            reassemble_stream(self.rank(), stream_views(inputs@), arrival_views(arrivals@), sels@).is_result(r),
    {
        let ghost ins = stream_views(inputs@);
        let ghost arrs = arrival_views(arrivals@);
        let ghost total = reassemble_stream(self.rank(), ins, arrs, sels@);
        let mut out: Vec<Elem<&'a T>> = Vec::new();
        let mut cursors: Vec<usize> = Vec::with_capacity(inputs.len());
        let mut p: usize = 0;
        while p < inputs.len()
            invariant
                p <= inputs.len(),
                cursors.len() == p,
                forall|k: int| 0 <= k < p ==> cursors[k] == 0,
            decreases inputs.len() - p,
        {
            cursors.push(0);
            p += 1;
        }
        let mut j: usize = 0;
        proof {
            assert(cursor_views(cursors@) =~= Seq::new(inputs.len() as nat, |p: int| 0int));
            lemma_after_nothing(total);
            assert(borrowed_stream(out@) =~= Seq::<Elem<T>>::empty());
        }
        while j < sels.len()
            invariant
                j <= sels.len(),
                ins == stream_views(inputs@),
                arrs == arrival_views(arrivals@),
                arrivals.len() == inputs.len(),
                cursors.len() == inputs.len(),
                forall|p: int| 0 <= p < inputs.len() ==> (#[trigger] arrivals[p]).len() == inputs[p].len(),
                forall|p: int| 0 <= p < inputs.len() ==> (#[trigger] cursors[p]) <= inputs[p].len(),
                forall|p: int, k: int, m: int|
                    0 <= p < inputs.len() && 0 <= k < inputs[p].len() && 0 <= m < sels.len() ==> (
                    #[trigger] inputs[p][k]).level() + (#[trigger] sels[m]).level() + 1 <= u32::MAX,
                total == reassemble_stream(self.rank(), ins, arrs, sels@),
                total == reassemble_from(self.rank(), ins, arrs, sels@, j as int, cursor_views(cursors@)).after(
                    borrowed_stream(out@),
                ),
            decreases sels.len() - j,
        {
            let ghost rest = reassemble_from(self.rank(), ins, arrs, sels@, j as int, cursor_views(cursors@));
            let ghost cv0 = cursor_views(cursors@);
            let ghost before = borrowed_stream(out@);
            let select_vec = sels[j].data().to_sel_vec();
            let ghost sel = select_vec@;
            let additional: StopType = match sels[j].stop_marker() {
                None => 0,
                Some(s) => s,
            };
            assert(additional == sels[j as int].level());
            // Every input named has to exist and to show an element.
            let mut k: usize = 0;
            let mut keys: Vec<u64> = Vec::with_capacity(select_vec.len());
            while k < select_vec.len()
                invariant
                    k <= select_vec.len(),
                    sel == select_vec@,
                    ins == stream_views(inputs@),
                    arrs == arrival_views(arrivals@),
                    cv0 == cursor_views(cursors@),
                    arrivals.len() == inputs.len(),
                    cursors.len() == inputs.len(),
                    forall|p: int| 0 <= p < inputs.len() ==> (#[trigger] arrivals[p]).len() == inputs[p].len(),
                    forall|m: int| 0 <= m < k ==> #[trigger] sel[m] < inputs.len(),
                    forall|m: int| 0 <= m < k ==> cv0[#[trigger] sel[m] as int] < ins[sel[m] as int].len(),
                    keys.len() == k,
                    forall|m: int| 0 <= m < k ==> keys[m] == head_arrivals(arrs, sel, cv0)[m],
                    rest == reassemble_from(self.rank(), ins, arrs, sels@, j as int, cv0),
                    total == reassemble_stream(self.rank(), ins, arrs, sels@),
                    total == rest.after(borrowed_stream(out@)),
                    j < sels.len(),
                    sel == sels[j as int].value().spec_sel_vec(),
                decreases select_vec.len() - k,
            {
                let idx = select_vec[k];
                if idx >= inputs.len() {
                    assert(!valid_targets(sel, ins.len()));
                    assert(rest == Run::<T>::fail(ProtocolError::BadConfig));
                    return Err(ProtocolError::BadConfig);
                }
                if cursors[idx] >= inputs[idx].len() {
                    proof {
                        assert(cv0[sel[k as int] as int] >= ins[sel[k as int] as int].len());
                        assert(!heads_present(ins, sel, cv0));
                    }
                    return Err(
                        if self.check_all_targets(&select_vec, inputs.len()) {
                            ProtocolError::ClosedEarly
                        } else {
                            ProtocolError::BadConfig
                        },
                    );
                }
                keys.push(arrivals[idx][cursors[idx]]);
                k += 1;
            }
            assert(valid_targets(sel, ins.len()));
            assert(heads_present(ins, sel, cv0));
            if select_vec.len() == 0 {
                assert(rest == Run::<T>::fail(ProtocolError::ClosedEarly));
                return Err(ProtocolError::ClosedEarly);
            }
            assert(keys@ =~= head_arrivals(arrs, sel, cv0));
            let order = order_by_arrival(&keys);
            let ghost ord = order@;
            proof {
                lemma_arrival_order(keys@, sel.len());
            }
            let n = select_vec.len();
            let mut q: usize = 0;
            proof {
                assert(before + Seq::<Elem<T>>::empty() =~= before);
            }
            while q < n
                invariant
                    q <= n,
                    n == sel.len(),
                    sel == select_vec@,
                    ord == order@,
                    ord.len() == n,
                    forall|m: int| 0 <= m < n ==> #[trigger] ord[m] < n,
                    valid_targets(sel, ins.len()),
                    ins == stream_views(inputs@),
                    cursors.len() == inputs.len(),
                    forall|p: int| 0 <= p < inputs.len() ==> (#[trigger] cursors[p]) <= inputs[p].len(),
                    forall|p: int, k: int|
                        0 <= p < inputs.len() && 0 <= k < inputs[p].len() ==> (#[trigger] inputs[p][k]).level()
                            + additional + 1 <= u32::MAX,
                    j < sels.len(),
                    sel == sels[j as int].value().spec_sel_vec(),
                    sel.len() > 0,
                    heads_present(ins, sel, cv0),
                    additional as nat == additional_rank(sels[j as int].stop()),
                    ord == arrival_order(head_arrivals(arrs, sel, cv0), sel.len()),
                    arrs == arrival_views(arrivals@),
                    rest == reassemble_from(self.rank(), ins, arrs, sels@, j as int, cv0),
                    total == reassemble_stream(self.rank(), ins, arrs, sels@),
                    total == rest.after(before),
                    serve_upto(self.rank(), ins, sel, additional as nat, ord, cv0, q as nat).err is None,
                    serve_upto(self.rank(), ins, sel, additional as nat, ord, cv0, q as nat).cursors
                        == cursor_views(cursors@),
                    borrowed_stream(out@) == before + serve_upto(
                        self.rank(),
                        ins,
                        sel,
                        additional as nat,
                        ord,
                        cv0,
                        q as nat,
                    ).out,
                decreases n - q,
            {
                let ghost prev = serve_upto(self.rank(), ins, sel, additional as nat, ord, cv0, q as nat);
                let pos = order[q];
                let is_last = q + 1 == n;
                let stream_idx = select_vec[pos];
                assert(sel[pos as int] < ins.len());
                let stream = &inputs[stream_idx];
                let c0 = cursors[stream_idx];
                let mut c: usize = c0;
                let ghost group_before = out@;
                let mut closed = false;
                proof {
                    assert(ins[stream_idx as int] == stream@);
                    assert(cursor_views(cursors@)[stream_idx as int] == c0);
                    assert(borrowed_stream(out@) + group_out(
                        self.rank(),
                        additional as nat,
                        is_last,
                        stream@,
                        c0 as int,
                        c as int,
                    ) =~= borrowed_stream(out@));
                }
                while c < stream.len() && !closed
                    invariant
                        c0 <= c <= stream.len(),
                        forall|k: int|
                            0 <= k < stream.len() ==> (#[trigger] stream[k]).level() + additional + 1 <= u32::MAX,
                        !closed ==> drain_end(self.rank(), stream@, c0 as int) == drain_end(
                            self.rank(),
                            stream@,
                            c as int,
                        ),
                        closed ==> drain_end(self.rank(), stream@, c0 as int) == Some(c as int),
                        borrowed_stream(out@) == borrowed_stream(group_before) + group_out(
                            self.rank(),
                            additional as nat,
                            is_last,
                            stream@,
                            c0 as int,
                            c as int,
                        ),
                    decreases stream.len() - c, if closed { 0int } else { 1int },
                {
                    let stop = stream[c].stop_marker();
                    assert(stream[c as int].level() + additional + 1 <= u32::MAX);
                    let (marker, done) = self.step(additional, is_last, stop);
                    let e = Elem::from_stop(stream[c].data(), marker);
                    proof {
                        lemma_borrowed_push(out@, e);
                        let src = stream[c as int];
                        assert(borrowed(e) == reassemble_elem(self.rank(), additional as nat, is_last, src));
                        assert(borrowed_stream(group_before) + group_out(
                            self.rank(),
                            additional as nat,
                            is_last,
                            stream@,
                            c0 as int,
                            c + 1,
                        ) =~= (borrowed_stream(group_before) + group_out(
                            self.rank(),
                            additional as nat,
                            is_last,
                            stream@,
                            c0 as int,
                            c as int,
                        )).push(borrowed(e)));
                    }
                    out.push(e);
                    c += 1;
                    closed = done;
                }
                if !closed {
                    proof {
                        assert(drain_end(self.rank(), stream@, c0 as int) is None);
                        let after = serve_upto(self.rank(), ins, sel, additional as nat, ord, cv0, (q + 1) as nat);
                        assert(after.err == Some(ProtocolError::ClosedEarly));
                        lemma_serve_error_stays(self.rank(), ins, sel, additional as nat, ord, cv0, (q + 1) as nat, n as nat);
                        assert(rest == Run::<T>::fail(ProtocolError::ClosedEarly));
                    }
                    return Err(ProtocolError::ClosedEarly);
                }
                let ghost old_cursors = cursors@;
                cursors.set(stream_idx, c);
                proof {
                    let after = serve_upto(self.rank(), ins, sel, additional as nat, ord, cv0, (q + 1) as nat);
                    assert(after.cursors == prev.cursors.update(stream_idx as int, c as int));
                    assert(cursor_views(cursors@) =~= cursor_views(old_cursors).update(stream_idx as int, c as int));
                    assert(before + (prev.out + group_out(
                        self.rank(),
                        additional as nat,
                        is_last,
                        stream@,
                        c0 as int,
                        c as int,
                    )) =~= (before + prev.out) + group_out(
                        self.rank(),
                        additional as nat,
                        is_last,
                        stream@,
                        c0 as int,
                        c as int,
                    ));
                }
                q += 1;
            }
            proof {
                let served = serve_upto(self.rank(), ins, sel, additional as nat, ord, cv0, n as nat);
                let next = reassemble_from(self.rank(), ins, arrs, sels@, j + 1, served.cursors);
                assert(rest == next.after(served.out));
                lemma_after_after(next, before, served.out);
            }
            j += 1;
        }
        proof {
            let rest = reassemble_from(self.rank(), ins, arrs, sels@, j as int, cursor_views(cursors@));
            assert(rest == Run::<T>::done());
            assert(borrowed_stream(out@) + Seq::<Elem<T>>::empty() =~= borrowed_stream(out@));
        }
        Ok(out)
    }

    /// Whether every input that the selector names exists.
    fn check_all_targets(&self, select_vec: &Vec<usize>, inputs: usize) -> (ok: bool)
        ensures
            ok == valid_targets(select_vec@, inputs as nat),
    {
        let mut k: usize = 0;
        while k < select_vec.len()
            invariant
                k <= select_vec.len(),
                forall|j: int| 0 <= j < k ==> #[trigger] select_vec[j] < inputs,
            decreases select_vec.len() - k,
        {
            if select_vec[k] >= inputs {
                return false;
            }
            k += 1;
        }
        true
    }
}

/// The cursors as numbers.
pub open spec fn cursor_views(cursors: Seq<usize>) -> Seq<int> {
    Seq::new(cursors.len(), |p: int| cursors[p] as int)
}

/// Once serving has failed it stays failed.
pub proof fn lemma_serve_error_stays<T>(
    rank: nat,
    inputs: Seq<Seq<Elem<T>>>,
    sel: Seq<usize>,
    additional: nat,
    order: Seq<usize>,
    cursors: Seq<int>,
    q: nat,
    n: nat,
)
    requires
        q <= n,
        serve_upto(rank, inputs, sel, additional, order, cursors, q).err is Some,
    ensures
        serve_upto(rank, inputs, sel, additional, order, cursors, n).err == serve_upto(
            rank,
            inputs,
            sel,
            additional,
            order,
            cursors,
            q,
        ).err,
    decreases n - q,
{
    if q < n {
        lemma_serve_error_stays(rank, inputs, sel, additional, order, cursors, q, (n - 1) as nat);
    }
}

} // verus!
