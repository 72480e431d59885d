use vstd::prelude::*;

use super::partition::{
    expected_level,
    fan,
    lemma_project_add,
    level_marker,
    partition_from,
    partition_stream,
    project,
    route_step,
    valid_targets,
};
use super::reassemble::{
    additional_rank,
    arrival_order,
    drain_end,
    group_out,
    head_arrivals,
    heads_present,
    insert_by_key,
    reassemble_elem,
    reassemble_from,
    reassemble_stream,
    serve_upto,
};
use super::bufferize::{bufferize_emit, bufferize_from};
use super::streamify::{
    lemma_streamify_plain,
    raise_at,
    repeat_bonus,
    streamify_buffer,
    streamify_stream,
    streamify_upto,
    traversal,
};
use super::{ProtocolError, Run};
use crate::primitives::buffer::{
    bump,
    close_group,
    group_end,
    group_outcome,
    lemma_group_end,
    track_fold,
    track_next,
    BufferView,
    GroupOutcome,
};
use crate::primitives::elem::{canonical_stream, values, Elem, StopType};
use crate::primitives::select::SelectAdapter;
use crate::primitives::tile::shape_product;
use crate::utils::calculation::{lemma_stop_level_bound, stop_level_at};

verus! {

/// The element `e` with its group closed one level higher: a stop level from
/// `rank` on rises by one, a lower one stays, and where groups have rank zero
/// a bare value gets a marker of level `1`.
pub open spec fn raised_elem<T>(e: Elem<T>, rank: nat) -> Elem<T> {
    match e {
        Elem::Val(x) => if rank == 0 {
            Elem::ValStop(x, 1)
        } else {
            Elem::Val(x)
        },
        Elem::ValStop(x, s) => if s >= rank {
            Elem::ValStop(x, (s + 1) as u32)
        } else {
            Elem::ValStop(x, s)
        },
    }
}

/// The stream `s` with every group of rank `rank` closed one level higher.
pub open spec fn raised_stream<T>(s: Seq<Elem<T>>, rank: nat) -> Seq<Elem<T>> {
    Seq::new(s.len(), |i: int| raised_elem(s[i], rank))
}

/// Every selector names one output.
pub open spec fn one_hot<S: SelectAdapter>(sels: Seq<Elem<S>>) -> bool {
    forall|j: int| 0 <= j < sels.len() ==> (#[trigger] sels[j]).value().spec_sel_vec().len() == 1
}

/// The position behind the group that a partition routes from position `i`
/// on.
pub open spec fn part_end<T>(rank: nat, expected: Option<nat>, input: Seq<Elem<T>>, i: int) -> int
    decreases input.len() - i,
{
    if i < 0 || i >= input.len() {
        input.len() as int
    } else {
        match route_step(rank, expected, input[i].stop()) {
            Ok((_, done)) => if done {
                i + 1
            } else {
                part_end(rank, expected, input, i + 1)
            },
            Err(_) => i,
        }
    }
}

/// Whether an element under the marker `stop` ends the group that a
/// partition routes; `None` where the element is a violation.
pub open spec fn step_done(rank: nat, expected: Option<nat>, stop: Option<StopType>) -> Option<bool> {
    match route_step(rank, expected, stop) {
        Ok((_, done)) => Some(done),
        Err(_) => None,
    }
}

/// Where groups have rank zero, every element is the group of one selector;
/// the input then carries a stop wherever its selector does. (Where groups
/// have a higher rank, a partition that ends in order has seen to that.)
pub open spec fn aligned<T, S: SelectAdapter>(rank: nat, input: Seq<Elem<T>>, sels: Seq<Elem<S>>, i: int, j: int) -> bool {
    rank == 0 ==> forall|m: int|
        j <= m < sels.len() && i + (m - j) < input.len() && (#[trigger] sels[m]).stop() is Some ==> input[i + (m
            - j)].stop() is Some
}

/// The element that a partition sends for `e`.
pub open spec fn routed_elem<T>(rank: nat, expected: Option<nat>, e: Elem<T>) -> Elem<T> {
    match route_step(rank, expected, e.stop()) {
        Ok((stop, _)) => Elem::with_stop(e.value(), stop),
        Err(_) => e,
    }
}

/// The elements that a partition sends for the positions `i..e`.
pub open spec fn part_elems<T>(rank: nat, expected: Option<nat>, input: Seq<Elem<T>>, i: int, e: int) -> Seq<Elem<T>> {
    Seq::new((e - i) as nat, |k: int| routed_elem(rank, expected, input[i + k]))
}

/// The elements all sent to the output `p`.
pub open spec fn single<T>(p: usize, elems: Seq<Elem<T>>) -> Seq<(usize, Elem<T>)> {
    Seq::new(elems.len(), |k: int| (p, elems[k]))
}

/// The position up to which a partition reads its input when it serves the
/// selectors from `j` on, beginning at position `i`.
pub open spec fn consumed<T, S: SelectAdapter>(rank: nat, input: Seq<Elem<T>>, sels: Seq<Elem<S>>, i: int, j: int) -> int
    decreases sels.len() - j,
{
    if j < 0 || j >= sels.len() {
        i
    } else {
        consumed(rank, input, sels, part_end(rank, expected_level(rank, sels[j].stop()), input, i), j + 1)
    }
}

/// What one output receives of elements that were all sent to `p`.
proof fn lemma_project_single<T>(p: usize, elems: Seq<Elem<T>>, q: nat)
    ensures
        project(single(p, elems), q) == if q == p {
            elems
        } else {
            Seq::empty()
        },
    decreases elems.len(),
{
    let s = single(p, elems);
    if elems.len() == 0 {
        assert(elems =~= Seq::<Elem<T>>::empty());
    } else {
        lemma_project_single(p, elems.drop_last(), q);
        assert(s.drop_last() =~= single(p, elems.drop_last()));
        assert(s.last() == (p, elems.last()));
        if q == p {
            assert(elems.drop_last().push(elems.last()) =~= elems);
        }
    }
}

/// A partition that ends in order routes, for a selector that names one
/// output, one group to that output and goes on behind the group.
proof fn lemma_partition_group<T, S: SelectAdapter>(
    rank: nat,
    outputs: nat,
    input: Seq<Elem<T>>,
    sels: Seq<Elem<S>>,
    i: int,
    j: int,
)
    requires
        0 <= i,
        0 <= j < sels.len(),
        partition_from(rank, outputs, input, sels, i, j).err is None,
        sels[j].value().spec_sel_vec().len() == 1,
    ensures
        ({
            let exp = expected_level(rank, sels[j].stop());
            let e = part_end(rank, exp, input, i);
            let p = sels[j].value().spec_sel_vec()[0];
            &&& i < e <= input.len()
            &&& p < outputs
            &&& partition_from(rank, outputs, input, sels, i, j).out == single(
                p,
                part_elems(rank, exp, input, i, e),
            ) + partition_from(rank, outputs, input, sels, e, j + 1).out
            &&& partition_from(rank, outputs, input, sels, e, j + 1).err is None
            &&& forall|k: int| i <= k < e - 1 ==> #[trigger] step_done(rank, exp, input[k].stop()) == Some(false)
            &&& step_done(rank, exp, input[e - 1].stop()) == Some(true)
        }),
    decreases input.len() - i,
{
    let exp = expected_level(rank, sels[j].stop());
    let sel = sels[j].value().spec_sel_vec();
    let p = sel[0];
    let here = partition_from(rank, outputs, input, sels, i, j);
    assert(valid_targets(sel, outputs));
    assert(i < input.len());
    match route_step(rank, exp, input[i].stop()) {
        Ok((stop, done)) => {
            let x = Elem::with_stop(input[i].value(), stop);
            assert(x == routed_elem(rank, exp, input[i]));
            assert(fan(sel, x) =~= seq![(p, x)]);
            if done {
                let next = partition_from(rank, outputs, input, sels, i + 1, j + 1);
                assert(here == next.after(fan(sel, x)));
                assert(part_elems(rank, exp, input, i, i + 1) =~= seq![x]);
                assert(single(p, seq![x]) =~= seq![(p, x)]);
            } else {
                let next = partition_from(rank, outputs, input, sels, i + 1, j);
                assert(here == next.after(fan(sel, x)));
                lemma_partition_group(rank, outputs, input, sels, i + 1, j);
                let e = part_end(rank, exp, input, i + 1);
                let tail = part_elems(rank, exp, input, i + 1, e);
                let all = part_elems(rank, exp, input, i, e);
                assert(all =~= seq![x] + tail);
                assert(single(p, all) =~= seq![(p, x)] + single(p, tail));
                let rest = partition_from(rank, outputs, input, sels, e, j + 1).out;
                assert(seq![(p, x)] + (single(p, tail) + rest) =~= (seq![(p, x)] + single(p, tail)) + rest);
            }
        },
        Err(_) => {},
    }
}

/// Whether an element of one input of a reassemble lets the group go on.
pub open spec fn continues<T>(rank: nat, e: Elem<T>) -> bool {
    match e.stop() {
        None => rank != 0,
        Some(l) => l < rank,
    }
}

/// A group of `n` elements of which only the last ends the group is drained
/// as a whole.
proof fn lemma_drain<T>(rank: nat, s: Seq<Elem<T>>, c: int, n: int)
    requires
        0 <= c,
        n >= 1,
        c + n <= s.len(),
        forall|k: int| 0 <= k < n - 1 ==> continues(rank, #[trigger] s[c + k]),
        !continues(rank, s[c + n - 1]),
    ensures
        drain_end(rank, s, c) == Some(c + n),
    decreases n,
{
    if n > 1 {
        assert(continues(rank, s[c + 0]));
        assert forall|k: int| 0 <= k < n - 2 implies continues(rank, #[trigger] s[(c + 1) + k]) by {
            assert(s[(c + 1) + k] == s[c + (k + 1)]);
        }
        lemma_drain(rank, s, c + 1, n - 1);
    }
}

/// What a reassemble sends for a group that a partition routed is the group
/// as it came to the partition, with the stop that closes it raised by one.
proof fn lemma_group_restored<T>(
    rank: nat,
    sel_stop: Option<StopType>,
    input: Seq<Elem<T>>,
    i: int,
    e: int,
    s: Seq<Elem<T>>,
    c: int,
)
    requires
        rank <= u32::MAX,
        canonical_stream(input),
        0 <= i < e <= input.len(),
        0 <= c,
        c + (e - i) <= s.len(),
        s.subrange(c, c + (e - i)) == part_elems(rank, expected_level(rank, sel_stop), input, i, e),
        forall|k: int|
            i <= k < e - 1 ==> #[trigger] step_done(rank, expected_level(rank, sel_stop), input[k].stop()) == Some(
                false,
            ),
        step_done(rank, expected_level(rank, sel_stop), input[e - 1].stop()) == Some(true),
        rank == 0 && sel_stop is Some ==> input[e - 1].stop() is Some,
    ensures
        drain_end(rank, s, c) == Some(c + (e - i)),
        group_out(rank, additional_rank(sel_stop), true, s, c, c + (e - i)) == raised_stream(
            input.subrange(i, e),
            rank,
        ),
{
    let exp = expected_level(rank, sel_stop);
    let n = e - i;
    let part = part_elems(rank, exp, input, i, e);
    let add = additional_rank(sel_stop);
    assert forall|k: int| 0 <= k < n implies s[c + k] == routed_elem(rank, exp, #[trigger] input[i + k]) by {
        assert(s.subrange(c, c + n)[k] == part[k]);
    }
    assert forall|k: int| 0 <= k < n - 1 implies continues(rank, #[trigger] s[c + k]) by {
        let src = input[i + k];
        assert(src.canonical());
        assert(step_done(rank, exp, input[i + k].stop()) == Some(false));
        assert(s[c + k] == routed_elem(rank, exp, input[i + k]));
    }
    assert(!continues(rank, s[c + n - 1])) by {
        let src = input[i + (n - 1)];
        assert(src.canonical());
        assert(step_done(rank, exp, input[e - 1].stop()) == Some(true));
        assert(s[c + (n - 1)] == routed_elem(rank, exp, input[i + (n - 1)]));
    }
    lemma_drain(rank, s, c, n);
    let got = group_out(rank, add, true, s, c, c + n);
    let want = raised_stream(input.subrange(i, e), rank);
    assert forall|k: int| 0 <= k < n implies got[k] == want[k] by {
        let src = input[i + k];
        assert(src.canonical());
        assert(input.subrange(i, e)[k] == src);
        assert(s[c + k] == routed_elem(rank, exp, input[i + k]));
        let r = s[c + k];
        if k < n - 1 {
            assert(step_done(rank, exp, input[i + k].stop()) == Some(false));
            assert(r == src);
            assert(reassemble_elem(rank, add, true, r) == raised_elem(src, rank));
        } else {
            assert(i + k == e - 1);
            assert(step_done(rank, exp, input[i + k].stop()) == Some(true));
            match src {
                Elem::Val(x) => {
                    assert(rank == 0);
                    assert(sel_stop is None);
                    assert(r == Elem::Val(x));
                },
                Elem::ValStop(x, l) => {
                    match sel_stop {
                        Some(sl) => {
                            assert(l == sl + rank);
                            assert(r == Elem::with_stop(x, level_marker(rank)));
                        },
                        None => {
                            assert(l == rank);
                            assert(rank > 0);
                            assert(r == src);
                        },
                    }
                },
            }
            assert(reassemble_elem(rank, add, true, r) == raised_elem(src, rank));
        }
    }
    assert(got =~= want);
}

/// The order of service for one input is that input.
proof fn lemma_arrival_order_one(keys: Seq<u64>)
    ensures
        arrival_order(keys, 1) == seq![0usize],
{
    assert(arrival_order(keys, 0) =~= Seq::<usize>::empty());
    assert(insert_by_key(Seq::<usize>::empty(), keys, 0) =~= seq![0usize]);
}

/// The streams that the outputs of a partition receive from what it sent.
pub open spec fn expert_inputs<T>(routed: Seq<(usize, Elem<T>)>, outputs: nat) -> Seq<Seq<Elem<T>>> {
    Seq::new(outputs, |p: int| project(routed, p as nat))
}

/// How far every output has been read once `prefix` has been taken back.
pub open spec fn cursors_after<T>(prefix: Seq<(usize, Elem<T>)>, outputs: nat) -> Seq<int> {
    Seq::new(outputs, |p: int| project(prefix, p as nat).len() as int)
}

/// From any point of a partition that ends in order on, a reassemble that
/// has taken back what was sent before takes back what is sent from there
/// on.
proof fn lemma_reassemble_from<T, S: SelectAdapter>(
    rank: nat,
    outputs: nat,
    input: Seq<Elem<T>>,
    sels: Seq<Elem<S>>,
    arrivals: Seq<Seq<u64>>,
    routed: Seq<(usize, Elem<T>)>,
    prefix: Seq<(usize, Elem<T>)>,
    i: int,
    j: int,
)
    requires
        rank <= u32::MAX,
        outputs <= usize::MAX,
        canonical_stream(input),
        one_hot(sels),
        0 <= i <= input.len(),
        0 <= j <= sels.len(),
        partition_from(rank, outputs, input, sels, i, j).err is None,
        routed == prefix + partition_from(rank, outputs, input, sels, i, j).out,
        aligned(rank, input, sels, i, j),
    ensures
        i <= consumed(rank, input, sels, i, j) <= input.len(),
        reassemble_from(rank, expert_inputs(routed, outputs), arrivals, sels, j, cursors_after(prefix, outputs))
            == (Run {
            out: raised_stream(input.subrange(i, consumed(rank, input, sels, i, j)), rank),
            err: None,
        }),
    decreases sels.len() - j,
{
    let streams = expert_inputs(routed, outputs);
    let cursors = cursors_after(prefix, outputs);
    if j >= sels.len() {
        assert(input.subrange(i, i) =~= Seq::<Elem<T>>::empty());
        assert(raised_stream(input.subrange(i, i), rank) =~= Seq::<Elem<T>>::empty());
    } else {
        let sel_stop = sels[j].stop();
        let exp = expected_level(rank, sel_stop);
        let sel = sels[j].value().spec_sel_vec();
        let add = additional_rank(sel_stop);
        assert(sel.len() == 1);
        lemma_partition_group(rank, outputs, input, sels, i, j);
        let e = part_end(rank, exp, input, i);
        let p = sel[0];
        let part = part_elems(rank, exp, input, i, e);
        let rest = partition_from(rank, outputs, input, sels, e, j + 1).out;
        let next_prefix = prefix + single(p, part);
        assert(routed =~= next_prefix + rest);
        // The stream of output `p` holds the group at its cursor.
        lemma_project_add(prefix, single(p, part) + rest, p as nat);
        lemma_project_add(single(p, part), rest, p as nat);
        lemma_project_single(p, part, p as nat);
        let s = streams[p as int];
        let c = cursors[p as int];
        assert(s == project(prefix, p as nat) + (part + project(rest, p as nat)));
        assert(s.subrange(c, c + (e - i)) =~= part);
        if rank == 0 {
            if e - 1 > i {
                assert(step_done(rank, exp, input[i].stop()) == Some(false));
            }
            assert(e == i + 1);
            assert(aligned(rank, input, sels, e, j + 1)) by {
                assert forall|m: int|
                    j + 1 <= m < sels.len() && e + (m - (j + 1)) < input.len() && (#[trigger] sels[m]).stop() is Some implies input[e
                    + (m - (j + 1))].stop() is Some by {
                    assert(e + (m - (j + 1)) == i + (m - j));
                }
            }
            assert(sels[j].stop() is Some ==> input[i + (j - j)].stop() is Some);
        }
        lemma_group_restored(rank, sel_stop, input, i, e, s, c);
        // The selector is served from its one input.
        assert(valid_targets(sel, streams.len())) by {
            assert forall|k: int| 0 <= k < sel.len() implies #[trigger] sel[k] < streams.len() by {
                assert(sel[k] == p);
            }
        }
        assert(heads_present(streams, sel, cursors)) by {
            assert forall|k: int| 0 <= k < sel.len() implies cursors[#[trigger] sel[k] as int] < streams[sel[k] as int].len() by {
                assert(sel[k] == p);
            }
        }
        let keys = head_arrivals(arrivals, sel, cursors);
        lemma_arrival_order_one(keys);
        let order = arrival_order(keys, sel.len());
        assert(order == seq![0usize]);
        let first = serve_upto(rank, streams, sel, add, order, cursors, 0);
        let served = serve_upto(rank, streams, sel, add, order, cursors, 1);
        assert(first.err is None && first.cursors == cursors);
        assert(sel[order[0] as int] == p);
        let restored = raised_stream(input.subrange(i, e), rank);
        assert(served.err is None);
        assert(served.out =~= restored) by {
            assert(first.out =~= Seq::<Elem<T>>::empty());
        }
        assert(served.cursors == cursors.update(p as int, c + (e - i)));
        // The cursors are those behind the longer prefix.
        let next_cursors = cursors_after(next_prefix, outputs);
        assert(served.cursors =~= next_cursors) by {
            assert forall|q: int| 0 <= q < outputs implies served.cursors[q] == next_cursors[q] by {
                lemma_project_add(prefix, single(p, part), q as nat);
                lemma_project_single(p, part, q as nat);
            }
        }
        lemma_reassemble_from(rank, outputs, input, sels, arrivals, routed, next_prefix, e, j + 1);
        let end = consumed(rank, input, sels, e, j + 1);
        let tail = raised_stream(input.subrange(e, end), rank);
        assert(raised_stream(input.subrange(i, end), rank) =~= restored + tail) by {
            assert forall|k: int| 0 <= k < end - i implies raised_stream(input.subrange(i, end), rank)[k] == (
            restored + tail)[k] by {
                if k < e - i {
                    assert(input.subrange(i, end)[k] == input.subrange(i, e)[k]);
                } else {
                    assert(input.subrange(i, end)[k] == input.subrange(e, end)[k - (e - i)]);
                }
            }
        }
    }
}

/// Partition then reassemble: where every selector names one output and
/// the partition ends in order, a reassemble of the same rank that reads
/// the outputs of the partition under the same selectors sends the input of
/// the partition again, element for element and in order, whatever the
/// arrival times are. Every stop that closed a group comes back one level
/// higher, because the selectors form one more dimension; the stops inside
/// a group come back as they were.
pub proof fn lemma_partition_then_reassemble<T, S: SelectAdapter>(
    rank: nat,
    outputs: nat,
    input: Seq<Elem<T>>,
    sels: Seq<Elem<S>>,
    arrivals: Seq<Seq<u64>>,
)
    requires
        rank <= u32::MAX,
        outputs <= usize::MAX,
        canonical_stream(input),
        one_hot(sels),
        aligned(rank, input, sels, 0, 0),
        partition_stream(rank, outputs, input, sels).err is None,
    ensures
        reassemble_stream(
            rank,
            expert_inputs(partition_stream(rank, outputs, input, sels).out, outputs),
            arrivals,
            sels,
        ) == (Run {
            out: raised_stream(input.subrange(0, consumed(rank, input, sels, 0, 0)), rank),
            err: None,
        }),
{
    let routed = partition_stream(rank, outputs, input, sels).out;
    let empty = Seq::<(usize, Elem<T>)>::empty();
    assert(routed =~= empty + routed);
    lemma_reassemble_from(rank, outputs, input, sels, arrivals, routed, empty, 0, 0);
    assert(cursors_after(empty, outputs) =~= Seq::new(expert_inputs(routed, outputs).len(), |p: int| 0int));
}

/// A shape whose stream tells its axes apart: every axis but the innermost
/// has at least two positions, and the innermost has one.
pub open spec fn regular(shape: Seq<usize>) -> bool {
    &&& shape.len() >= 1
    &&& shape.last() >= 1
    &&& forall|k: int| 0 <= k < shape.len() - 1 ==> #[trigger] shape[k] >= 2
}

/// The axis counts after the first `c` entries of the stream of a regular
/// shape: the count of the entries while the innermost axis is not full,
/// then the innermost axis and the counts of the outer axes for the full
/// rows.
pub open spec fn info_at(shape: Seq<usize>, c: nat) -> Seq<usize>
    decreases shape.len(),
{
    if shape.len() <= 1 {
        seq![c as usize]
    } else {
        let d = shape.last() as nat;
        if c < d || d == 0 {
            seq![c as usize]
        } else {
            seq![d as usize] + info_at(shape.drop_last(), c / d)
        }
    }
}

/// The outer axes of a regular shape of several axes form a regular shape
/// with at least two entries, and the entries of the shape are rows of the
/// innermost axis.
proof fn lemma_regular_outer(shape: Seq<usize>)
    requires
        regular(shape),
        shape.len() >= 2,
    ensures
        regular(shape.drop_last()),
        shape.drop_last().last() >= 2,
        shape_product(shape.drop_last()) >= 2,
        shape_product(shape) == shape_product(shape.drop_last()) * shape.last(),
{
    let t = shape.drop_last();
    assert(t.last() == shape[shape.len() - 2]);
    assert forall|k: int| 0 <= k < t.len() - 1 implies #[trigger] t[k] >= 2 by {
        assert(t[k] == shape[k]);
    }
    lemma_regular_product(t);
    let p = shape_product(t.drop_last());
    let l = t.last() as int;
    assert(p * l >= 2) by (nonlinear_arith)
        requires
            p >= 1,
            l >= 2,
    ;
}

/// A regular shape has an entry.
proof fn lemma_regular_product(shape: Seq<usize>)
    requires
        regular(shape),
    ensures
        shape_product(shape) >= 1,
        shape_product(shape.drop_last()) >= 1,
    decreases shape.len(),
{
    if shape.len() >= 2 {
        let t = shape.drop_last();
        assert(t.last() == shape[shape.len() - 2]);
        assert forall|k: int| 0 <= k < t.len() - 1 implies #[trigger] t[k] >= 2 by {
            assert(t[k] == shape[k]);
        }
        lemma_regular_product(t);
        let p = shape_product(t);
        let l = shape.last() as int;
        assert(p * l >= 1) by (nonlinear_arith)
            requires
                p >= 1,
                l >= 1,
        ;
    } else {
        assert(shape.drop_last().len() == 0);
        assert(shape_product(shape.drop_last()) == 1);
    }
}

/// An entry below the last one does not end all axes; the last one does.
proof fn lemma_level_of_last(shape: Seq<usize>, c: nat)
    requires
        regular(shape),
        c < shape_product(shape),
    ensures
        stop_level_at(shape, c) == shape.len() <==> c == shape_product(shape) - 1,
        stop_level_at(shape, c) <= shape.len(),
    decreases shape.len(),
{
    lemma_stop_level_bound(shape, c);
    let d = shape.last() as int;
    let t = shape.drop_last();
    if shape.len() >= 2 {
        lemma_regular_outer(shape);
        let nt = shape_product(t) as int;
        vstd::arithmetic::div_mod::lemma_fundamental_div_mod(c as int, d);
        vstd::arithmetic::div_mod::lemma_mod_bound(c as int, d);
        let q = c as int / d;
        let r = c as int % d;
        assert(q >= 0) by {
            vstd::arithmetic::div_mod::lemma_div_pos_is_pos(c as int, d);
        }
        assert(q < nt) by (nonlinear_arith)
            requires
                c == d * q + r,
                0 <= r < d,
                c < nt * d,
                d > 0,
        ;
        lemma_level_of_last(t, q as nat);
        if c == nt * d - 1 {
            assert(q == nt - 1 && r == d - 1) by (nonlinear_arith)
                requires
                    c == d * q + r,
                    0 <= r < d,
                    c == nt * d - 1,
                    d > 0,
                    q < nt,
            ;
        }
        if r == d - 1 && q == nt - 1 {
            assert(c == nt * d - 1) by (nonlinear_arith)
                requires
                    c == d * q + r,
                    r == d - 1,
                    q == nt - 1,
            ;
        }
    } else {
        assert(t.len() == 0);
        assert(shape_product(t) == 1);
        assert(shape_product(shape) == d) by (nonlinear_arith)
            requires
                shape_product(shape) == 1 * d,
        ;
        vstd::arithmetic::div_mod::lemma_small_mod(c, d as nat);
    }
}

/// The first entry of a shape whose innermost axis has several positions
/// ends no axis.
proof fn lemma_level_of_first(shape: Seq<usize>)
    requires
        shape.len() >= 1,
        shape.last() >= 2,
    ensures
        stop_level_at(shape, 0) == 0,
{
    vstd::arithmetic::div_mod::lemma_small_mod(0, shape.last() as nat);
}

/// Counting one more entry: the counts behind the innermost axis are
/// counted as the counts of the outer axes, one level lower.
proof fn lemma_track_next_shift(d: usize, x: Seq<usize>, l: nat)
    requires
        x.len() >= 1,
    ensures
        track_next(seq![d] + x, l + 1) == seq![d] + track_next(x, l),
{
    let info = seq![d] + x;
    if x.len() == l && l > 0 {
        assert(bump(info, l as int) =~= seq![d] + bump(x, l - 1));
        assert(bump(info, l as int).push(1) =~= seq![d] + bump(x, l - 1).push(1));
    } else if x.len() == l + 1 {
        assert(bump(info, (l + 1) as int) =~= seq![d] + bump(x, l as int));
    }
}

/// The counts have an entry for every axis that is known.
proof fn lemma_info_len(shape: Seq<usize>, c: nat)
    ensures
        info_at(shape, c).len() >= 1,
    decreases shape.len(),
{
    if shape.len() > 1 {
        let d = shape.last() as nat;
        if !(c < d || d == 0) {
            lemma_info_len(shape.drop_last(), c / d);
        }
    }
}

/// One more entry of the stream of a regular shape, not the last one,
/// takes the counts to the counts of one entry more.
proof fn lemma_info_step(shape: Seq<usize>, c: nat)
    requires
        regular(shape),
        c + 1 < shape_product(shape),
        shape_product(shape) <= usize::MAX,
    ensures
        track_next(info_at(shape, c), stop_level_at(shape, c)) == info_at(shape, c + 1),
    decreases shape.len(),
{
    let d = shape.last() as int;
    let t = shape.drop_last();
    lemma_regular_product(shape);
    if shape.len() <= 1 {
        assert(t.len() == 0);
        assert(shape_product(t) == 1);
        assert(shape_product(shape) == d) by (nonlinear_arith)
            requires
                shape_product(shape) == 1 * d,
        ;
        vstd::arithmetic::div_mod::lemma_small_mod(c, d as nat);
        assert(stop_level_at(shape, c) == 0);
        assert(bump(seq![c as usize], 0) =~= seq![(c + 1) as usize]);
    } else {
        lemma_regular_outer(shape);
        let nt = shape_product(t) as int;
        assert(d <= nt * d) by (nonlinear_arith)
            requires
                nt >= 1,
                d >= 0,
        ;
        if c < d - 1 {
            vstd::arithmetic::div_mod::lemma_small_mod(c, d as nat);
            assert(stop_level_at(shape, c) == 0);
            assert(bump(seq![c as usize], 0) =~= seq![(c + 1) as usize]);
        } else if c == d - 1 {
            vstd::arithmetic::div_mod::lemma_small_mod(c, d as nat);
            vstd::arithmetic::div_mod::lemma_basic_div(c as int, d);
            lemma_level_of_first(t);
            assert(stop_level_at(shape, c) == 1);
            assert(info_at(shape, c) == seq![c as usize]);
            assert(bump(seq![c as usize], 0).push(1) =~= seq![d as usize] + seq![1usize]);
            vstd::arithmetic::div_mod::lemma_div_basics(d);
            assert((c + 1) as int / d == 1);
            assert(info_at(t, 1) == seq![1usize]);
        } else {
            vstd::arithmetic::div_mod::lemma_fundamental_div_mod(c as int, d);
            vstd::arithmetic::div_mod::lemma_mod_bound(c as int, d);
            let q = c as int / d;
            let r = c as int % d;
            assert(q >= 1) by (nonlinear_arith)
                requires
                    c == d * q + r,
                    0 <= r < d,
                    c >= d,
                    d > 0,
            ;
            lemma_info_len(t, q as nat);
            let x = info_at(t, q as nat);
            assert(info_at(shape, c) == seq![d as usize] + x);
            if r != d - 1 {
                assert(stop_level_at(shape, c) == 0);
                assert(c + 1 == q * d + (r + 1)) by (nonlinear_arith)
                    requires
                        c == d * q + r,
                ;
                vstd::arithmetic::div_mod::lemma_fundamental_div_mod_converse((c + 1) as int, d, q, r + 1);
                assert(track_next(seq![d as usize] + x, 0) == seq![d as usize] + x);
            } else {
                let lt = stop_level_at(t, q as nat);
                assert(stop_level_at(shape, c) == 1 + lt);
                assert(c + 1 == (q + 1) * d + 0) by (nonlinear_arith)
                    requires
                        c == d * q + r,
                        r == d - 1,
                ;
                vstd::arithmetic::div_mod::lemma_fundamental_div_mod_converse((c + 1) as int, d, q + 1, 0);
                assert(q + 1 < nt) by (nonlinear_arith)
                    requires
                        c == d * q + r,
                        r == d - 1,
                        c + 1 < nt * d,
                        d > 0,
                ;
                assert(nt <= nt * d) by (nonlinear_arith)
                    requires
                        nt >= 0,
                        d >= 1,
                ;
                lemma_info_step(t, q as nat);
                lemma_track_next_shift(d as usize, x, lt);
                assert(c + 1 >= d);
            }
        }
    }
}

/// Before its last entry, the stream of a regular shape has made the counts
/// know every axis, and counting the last entry gives the axes of the
/// shape, innermost first.
proof fn lemma_info_closes(shape: Seq<usize>)
    requires
        regular(shape),
        shape_product(shape) <= usize::MAX,
    ensures
        info_at(shape, (shape_product(shape) - 1) as nat).len() == shape.len(),
        bump(info_at(shape, (shape_product(shape) - 1) as nat), shape.len() - 1) == shape.reverse(),
    decreases shape.len(),
{
    let d = shape.last() as int;
    let t = shape.drop_last();
    let n = shape_product(shape) as int;
    lemma_regular_product(shape);
    if shape.len() <= 1 {
        assert(t.len() == 0);
        assert(shape_product(t) == 1);
        assert(n == d) by (nonlinear_arith)
            requires
                n == 1 * d,
        ;
        assert(bump(seq![(n - 1) as usize], 0) =~= shape.reverse());
    } else {
        lemma_regular_outer(shape);
        let nt = shape_product(t) as int;
        let c = n - 1;
        assert(c >= d) by (nonlinear_arith)
            requires
                c == nt * d - 1,
                nt >= 2,
                d >= 1,
        ;
        assert(c == (nt - 1) * d + (d - 1)) by (nonlinear_arith)
            requires
                c == nt * d - 1,
        ;
        vstd::arithmetic::div_mod::lemma_fundamental_div_mod_converse(c, d, nt - 1, d - 1);
        assert(nt <= n) by (nonlinear_arith)
            requires
                n == nt * d,
                d >= 1,
                nt >= 0,
        ;
        lemma_info_closes(t);
        let x = info_at(t, (nt - 1) as nat);
        assert(info_at(shape, c as nat) == seq![d as usize] + x);
        assert(bump(seq![d as usize] + x, shape.len() - 1) =~= seq![d as usize] + bump(x, t.len() - 1));
        assert(seq![d as usize] + t.reverse() =~= shape.reverse());
    }
}

/// The counts after the first `c` entries of the stream of a regular
/// buffer, none of them the last, are the counts of the shape.
proof fn lemma_track_fold_regular<T>(b: BufferView<T>, c: nat)
    requires
        b.wf(),
        regular(b.shape),
        b.data.len() <= usize::MAX,
        c + 1 <= b.data.len(),
    ensures
        track_fold(b.to_stream(), 0, c as int) == info_at(b.shape, c),
    decreases c,
{
    if c == 0 {
        lemma_info_zero(b.shape);
    } else {
        lemma_track_fold_regular(b, (c - 1) as nat);
        lemma_stream_level(b, c - 1);
        lemma_info_step(b.shape, (c - 1) as nat);
    }
}

/// Before any entry the count is zero.
proof fn lemma_info_zero(shape: Seq<usize>)
    ensures
        info_at(shape, 0) == seq![0usize],
{
}

/// The stream of a regular buffer carries every entry with the stop level
/// of its position.
proof fn lemma_stream_level<T>(b: BufferView<T>, i: int)
    requires
        b.wf(),
        regular(b.shape),
        0 <= i < b.data.len(),
    ensures
        b.to_stream()[i].level() == stop_level_at(b.shape, i as nat),
        b.to_stream()[i].value() == b.data[i],
{
    lemma_stop_level_bound(b.shape, i as nat);
    if b.data.len() == 1 {
        lemma_level_of_last(b.shape, 0);
        if b.shape.len() >= 2 {
            lemma_regular_outer(b.shape);
            let nt = shape_product(b.shape.drop_last()) as int;
            let d = b.shape.last() as int;
            assert(nt * d >= 2) by (nonlinear_arith)
                requires
                    nt >= 2,
                    d >= 1,
            ;
        }
    }
}

/// Bufferize undoes streamify: the stream of a regular buffer of rank `R`,
/// gathered at rank `R`, gives the buffer back, with its shape and its
/// entries, and leaves no stop level over.
pub proof fn lemma_bufferize_of_stream<T>(b: BufferView<T>, creation_time: u64)
    requires
        b.wf(),
        regular(b.shape),
        b.data.len() <= usize::MAX,
    ensures
        group_outcome(b.to_stream(), 0, b.shape.len(), creation_time) == GroupOutcome::Complete(
            BufferView { shape: b.shape, data: b.data, creation_time },
            0,
        ),
        group_end(b.to_stream(), 0, b.shape.len()) == b.data.len() - 1,
{
    let st = b.to_stream();
    let rank = b.shape.len();
    let n = b.data.len() as int;
    lemma_regular_product(b.shape);
    assert forall|j: int| 0 <= j < n - 1 implies (#[trigger] st[j]).level() < rank by {
        lemma_stream_level(b, j);
        lemma_level_of_last(b.shape, j as nat);
    }
    lemma_stream_level(b, n - 1);
    lemma_level_of_last(b.shape, (n - 1) as nat);
    lemma_group_end(st, 0, n - 1, rank);
    lemma_track_fold_regular(b, (n - 1) as nat);
    lemma_info_closes(b.shape);
    let info = track_fold(st, 0, n - 1);
    let shape = bump(info, rank - 1).reverse();
    assert(shape =~= b.shape);
    let data = values(st.subrange(0, n));
    assert(data =~= b.data) by {
        assert forall|i: int| 0 <= i < n implies data[i] == b.data[i] by {
            lemma_stream_level(b, i);
        }
    }
}

/// The round trip through bufferize and streamify: the stream of a regular
/// buffer, gathered into buffers of its rank and read out again without
/// repeat loops, is the stream again, element for element and stop level
/// for stop level.
pub proof fn lemma_bufferize_then_streamify<T>(b: BufferView<T>, t0: u64)
    requires
        b.wf(),
        regular(b.shape),
        b.data.len() <= usize::MAX,
    ensures
        bufferize_from(b.to_stream(), 0, b.shape.len(), t0).err is None,
        streamify_stream(
            bufferize_from(b.to_stream(), 0, b.shape.len(), t0).out,
            b.shape.len(),
            Seq::<usize>::empty(),
        ) == b.to_stream(),
{
    let st = b.to_stream();
    let rank = b.shape.len();
    let n = b.data.len() as int;
    lemma_regular_product(b.shape);
    lemma_bufferize_of_stream(b, t0);
    let got = BufferView { shape: b.shape, data: b.data, creation_time: t0 };
    assert(bufferize_emit(group_outcome(st, 0, rank, t0)) == Ok::<Option<Elem<BufferView<T>>>, ProtocolError>(
        Some(Elem::Val(got)),
    ));
    let rest = bufferize_from(st, n, rank, t0);
    assert(group_outcome(st, n, rank, (t0 + n) as u64) == GroupOutcome::<T>::Finished);
    assert(rest == Run::<BufferView<T>>::done());
    let run = bufferize_from(st, 0, rank, t0);
    assert(run.out =~= seq![Elem::Val(got)]);
    let bufs = run.out;
    assert(bufs.drop_last() =~= Seq::<Elem<BufferView<T>>>::empty());
    lemma_streamify_plain(got, rank);
    assert(got.to_stream() =~= st);
    assert(streamify_stream(bufs.drop_last(), rank, Seq::<usize>::empty()) =~= Seq::<Elem<T>>::empty());
    assert(streamify_stream(bufs, rank, Seq::<usize>::empty()) =~= st);
}

/// Every element of the stream holds a regular buffer of rank `rank`, is a
/// bare value or has a stop marker of level one or more, and leaves room
/// for its level above the rank.
pub open spec fn regular_buffers<T>(bufs: Seq<Elem<BufferView<T>>>, rank: nat) -> bool {
    forall|k: int|
        0 <= k < bufs.len() ==> {
            &&& (#[trigger] bufs[k]).canonical()
            &&& bufs[k].value().wf()
            &&& regular(bufs[k].value().shape)
            &&& bufs[k].value().shape.len() == rank
            &&& bufs[k].value().data.len() <= usize::MAX
            &&& rank + bufs[k].level() <= u32::MAX
        }
}

/// The buffers with the arrival times that gathering gives them, when the
/// entries of the first buffer arrive from position `start` of a stream on
/// whose entries arrive one per cycle from cycle `t0` on.
pub open spec fn retimed<T>(bufs: Seq<Elem<BufferView<T>>>, start: int, t0: u64) -> Seq<Elem<BufferView<T>>>
    decreases bufs.len(),
{
    if bufs.len() == 0 {
        Seq::empty()
    } else {
        let b = bufs[0].value();
        seq![
            Elem::with_level(
                BufferView { shape: b.shape, data: b.data, creation_time: (t0 + start) as u64 },
                bufs[0].level(),
            ),
        ] + retimed(bufs.drop_first(), start + b.data.len(), t0)
    }
}

/// Without repeat loops, a buffer that arrived with stop level `outer` is
/// read once, its closing stop raised by `outer`.
proof fn lemma_streamify_one<T>(b: BufferView<T>, rank: nat, outer: nat)
    ensures
        streamify_buffer(b, rank, Seq::<usize>::empty(), outer) == traversal(b, rank, outer),
{
    let r = Seq::<usize>::empty();
    assert(shape_product(r) == 1);
    assert(repeat_bonus(r, 0, outer) == outer);
    assert(streamify_upto(b, rank, r, outer, 0) =~= Seq::<Elem<T>>::empty());
    assert(streamify_upto(b, rank, r, outer, 1) =~= traversal(b, rank, outer));
}

/// The stream sent for a stream of buffers begins with the stream of the
/// first buffer.
proof fn lemma_streamify_front<T>(bufs: Seq<Elem<BufferView<T>>>, rank: nat, repeat: Seq<usize>)
    requires
        bufs.len() > 0,
    ensures
        streamify_stream(bufs, rank, repeat) == streamify_buffer(bufs[0].value(), rank, repeat, bufs[0].level())
            + streamify_stream(bufs.drop_first(), rank, repeat),
    decreases bufs.len(),
{
    let first = streamify_buffer(bufs[0].value(), rank, repeat, bufs[0].level());
    let last = streamify_buffer(bufs.last().value(), rank, repeat, bufs.last().level());
    if bufs.len() == 1 {
        assert(bufs.drop_last() =~= Seq::<Elem<BufferView<T>>>::empty());
        assert(bufs.drop_first() =~= Seq::<Elem<BufferView<T>>>::empty());
        assert(streamify_stream(bufs.drop_last(), rank, repeat) =~= Seq::<Elem<T>>::empty());
        assert(Seq::<Elem<T>>::empty() + first =~= first + Seq::<Elem<T>>::empty());
    } else {
        let front = bufs.drop_last();
        lemma_streamify_front(front, rank, repeat);
        let tail = bufs.drop_first();
        assert(tail.drop_last() =~= front.drop_first());
        assert(tail.last() == bufs.last());
        assert(front[0] == bufs[0]);
        let mid = streamify_stream(front.drop_first(), rank, repeat);
        assert((first + mid) + last =~= first + (mid + last));
    }
}

/// The element `j` places behind position `a`.
pub open spec fn elem_behind<T>(s: Seq<Elem<T>>, a: int, j: int) -> Elem<T> {
    s[a + j]
}

/// The axis counts depend on the stop levels alone.
proof fn lemma_track_fold_same<T>(s1: Seq<Elem<T>>, a1: int, s2: Seq<Elem<T>>, a2: int, m: nat)
    requires
        forall|j: int| 0 <= j < m ==> (#[trigger] elem_behind(s1, a1, j)).level() == elem_behind(s2, a2, j).level(),
    ensures
        track_fold(s1, a1, a1 + m) == track_fold(s2, a2, a2 + m),
    decreases m,
{
    if m > 0 {
        lemma_track_fold_same(s1, a1, s2, a2, (m - 1) as nat);
        assert(elem_behind(s1, a1, m - 1).level() == elem_behind(s2, a2, m - 1).level());
    }
}

/// Gathering finds a regular buffer again where a stream holds its
/// entries, the closing stop raised by `outer`: the buffer comes back with
/// its shape and its entries, and `outer` is the level that is left over.
proof fn lemma_group_of_buffer<T>(x: Seq<Elem<T>>, start: int, b: BufferView<T>, outer: nat, ct: u64)
    requires
        b.wf(),
        regular(b.shape),
        b.data.len() <= usize::MAX,
        b.shape.len() + outer <= u32::MAX,
        0 <= start,
        start + b.data.len() <= x.len(),
        forall|i: int|
            0 <= i < b.data.len() ==> #[trigger] elem_behind(x, start, i) == traversal(b, b.shape.len(), outer)[i],
    ensures
        b.data.len() >= 1,
        group_end(x, start, b.shape.len()) == start + b.data.len() - 1,
        group_outcome(x, start, b.shape.len(), ct) == GroupOutcome::Complete(
            BufferView { shape: b.shape, data: b.data, creation_time: ct },
            outer,
        ),
{
    let st = b.to_stream();
    let rank = b.shape.len();
    let n = b.data.len() as int;
    let g = traversal(b, rank, outer);
    lemma_regular_product(b.shape);
    lemma_bufferize_of_stream(b, ct);
    assert forall|j: int| 0 <= j < n implies (#[trigger] elem_behind(x, start, j)).value() == b.data[j] && (if j < n
        - 1 {
        elem_behind(x, start, j).level() == st[j].level() && st[j].level() < rank
    } else {
        elem_behind(x, start, j).level() == rank + outer
    }) by {
        lemma_stream_level(b, j);
        lemma_level_of_last(b.shape, j as nat);
        assert(elem_behind(x, start, j) == g[j]);
        assert(g[j] == raise_at(st[j], rank, outer));
    }
    assert forall|j: int| start <= j < start + n - 1 implies (#[trigger] x[j]).level() < rank by {
        assert(elem_behind(x, start, j - start).level() < rank);
    }
    assert(elem_behind(x, start, n - 1).level() >= rank);
    lemma_group_end(x, start, start + n - 1, rank);
    assert forall|j: int| 0 <= j < n - 1 implies (#[trigger] elem_behind(x, start, j)).level() == elem_behind(
        st,
        0,
        j,
    ).level() by {
        assert(elem_behind(x, start, j).value() == b.data[j]);
    }
    lemma_track_fold_same(x, start, st, 0, (n - 1) as nat);
    let data = values(x.subrange(start, start + n));
    assert(data =~= b.data) by {
        assert forall|i: int| 0 <= i < n implies data[i] == b.data[i] by {
            assert(elem_behind(x, start, i).value() == b.data[i]);
        }
    }
    assert(values(st.subrange(0, n)) =~= b.data) by {
        assert forall|i: int| 0 <= i < n implies values(st.subrange(0, n))[i] == b.data[i] by {
            lemma_stream_level(b, i);
        }
    }
    let info = track_fold(st, 0, n - 1);
    assert(group_outcome(st, 0, rank, ct) == close_group(rank, info, b.data, st[n - 1].level(), ct));
    assert(group_outcome(x, start, rank, ct) == close_group(rank, info, b.data, x[start + n - 1].level(), ct));
}

/// Gathering the stream of regular buffers from the position on at which
/// they begin gives the buffers back.
proof fn lemma_bufferize_groups<T>(x: Seq<Elem<T>>, start: int, bufs: Seq<Elem<BufferView<T>>>, rank: nat, t0: u64)
    requires
        0 <= start <= x.len(),
        regular_buffers(bufs, rank),
        x.subrange(start, x.len() as int) == streamify_stream(bufs, rank, Seq::<usize>::empty()),
    ensures
        bufferize_from(x, start, rank, t0) == (Run { out: retimed(bufs, start, t0), err: None }),
    decreases bufs.len(),
{
    let none = Seq::<usize>::empty();
    let tail = x.subrange(start, x.len() as int);
    if bufs.len() == 0 {
        assert(tail.len() == 0);
        assert(group_outcome(x, start, rank, (t0 + start) as u64) == GroupOutcome::<T>::Finished);
    } else {
        let e = bufs[0];
        let b = e.value();
        let outer = e.level();
        let n = b.data.len() as int;
        let ct = (t0 + start) as u64;
        let rest = bufs.drop_first();
        lemma_streamify_front(bufs, rank, none);
        lemma_streamify_one(b, rank, outer);
        let g = traversal(b, rank, outer);
        let after = streamify_stream(rest, rank, none);
        assert(tail == g + after);
        assert(tail.len() == n + after.len());
        assert forall|i: int| 0 <= i < n implies #[trigger] elem_behind(x, start, i) == g[i] by {
            assert(tail[i] == x[start + i]);
            assert((g + after)[i] == g[i]);
        }
        lemma_group_of_buffer(x, start, b, outer, ct);
        let got = BufferView { shape: b.shape, data: b.data, creation_time: ct };
        assert(x.subrange(start + n, x.len() as int) =~= after) by {
            assert forall|i: int| 0 <= i < after.len() implies x.subrange(start + n, x.len() as int)[i]
                == after[i] by {
                assert(tail[n + i] == x[start + n + i]);
                assert((g + after)[n + i] == after[i]);
            }
        }
        assert forall|k: int| 0 <= k < rest.len() implies {
            &&& (#[trigger] rest[k]).canonical()
            &&& rest[k].value().wf()
            &&& regular(rest[k].value().shape)
            &&& rest[k].value().shape.len() == rank
            &&& rest[k].value().data.len() <= usize::MAX
            &&& rank + rest[k].level() <= u32::MAX
        } by {
            assert(rest[k] == bufs[k + 1]);
        }
        lemma_bufferize_groups(x, start + n, rest, rank, t0);
        assert(bufferize_emit(group_outcome(x, start, rank, ct)) == Ok::<
            Option<Elem<BufferView<T>>>,
            ProtocolError,
        >(Some(Elem::with_level(got, outer))));
        assert(group_end(x, start, rank) + 1 == start + n);
        assert(bufferize_from(x, start, rank, t0) == bufferize_from(x, start + n, rank, t0).after(
            seq![Elem::with_level(got, outer)],
        ));
    }
}

/// Reading out does not look at arrival times.
proof fn lemma_streamify_retimed<T>(bufs: Seq<Elem<BufferView<T>>>, rank: nat, start: int, t0: u64)
    requires
        regular_buffers(bufs, rank),
    ensures
        streamify_stream(retimed(bufs, start, t0), rank, Seq::<usize>::empty()) == streamify_stream(
            bufs,
            rank,
            Seq::<usize>::empty(),
        ),
    decreases bufs.len(),
{
    let none = Seq::<usize>::empty();
    let again = retimed(bufs, start, t0);
    if bufs.len() == 0 {
        assert(again =~= bufs);
    } else {
        let b = bufs[0].value();
        let outer = bufs[0].level();
        let got = BufferView { shape: b.shape, data: b.data, creation_time: (t0 + start) as u64 };
        let rest = bufs.drop_first();
        assert forall|k: int| 0 <= k < rest.len() implies {
            &&& (#[trigger] rest[k]).canonical()
            &&& rest[k].value().wf()
            &&& regular(rest[k].value().shape)
            &&& rest[k].value().shape.len() == rank
            &&& rest[k].value().data.len() <= usize::MAX
            &&& rank + rest[k].level() <= u32::MAX
        } by {
            assert(rest[k] == bufs[k + 1]);
        }
        lemma_streamify_retimed(rest, rank, start + b.data.len(), t0);
        assert(bufs[0].canonical());
        assert(again[0] == Elem::with_level(got, outer));
        assert(again[0].value() == got && again[0].level() == outer);
        assert(again.drop_first() =~= retimed(rest, start + b.data.len(), t0));
        lemma_streamify_front(again, rank, none);
        lemma_streamify_front(bufs, rank, none);
        lemma_streamify_one(got, rank, outer);
        lemma_streamify_one(b, rank, outer);
        assert(traversal(got, rank, outer) =~= traversal(b, rank, outer)) by {
            assert(got.to_stream() =~= b.to_stream());
        }
    }
}

/// Bufferize undoes streamify on whole streams: the stream read out of
/// regular buffers of rank `R` without repeat loops, gathered at rank `R`,
/// gives the buffers back one by one, each with its shape, its entries and
/// the stop level that it came with.
pub proof fn lemma_streamify_then_bufferize<T>(bufs: Seq<Elem<BufferView<T>>>, rank: nat, t0: u64)
    requires
        regular_buffers(bufs, rank),
    ensures
        bufferize_from(streamify_stream(bufs, rank, Seq::<usize>::empty()), 0, rank, t0) == (Run {
            out: retimed(bufs, 0, t0),
            err: None,
        }),
{
    let x = streamify_stream(bufs, rank, Seq::<usize>::empty());
    assert(x.subrange(0, x.len() as int) =~= x);
    lemma_bufferize_groups(x, 0, bufs, rank, t0);
}

/// The round trip through bufferize and streamify for streams of any
/// number of groups: a stream that holds regular buffers of rank `R` one
/// after the other, each closed by a stop of level `R` or above, gathered
/// into buffers of rank `R` and read out again without repeat loops, is the
/// stream again, element for element and stop level for stop level.
pub proof fn lemma_round_trip_of_groups<T>(bufs: Seq<Elem<BufferView<T>>>, rank: nat, t0: u64)
    requires
        regular_buffers(bufs, rank),
    ensures
        bufferize_from(streamify_stream(bufs, rank, Seq::<usize>::empty()), 0, rank, t0).err is None,
        streamify_stream(
            bufferize_from(streamify_stream(bufs, rank, Seq::<usize>::empty()), 0, rank, t0).out,
            rank,
            Seq::<usize>::empty(),
        ) == streamify_stream(bufs, rank, Seq::<usize>::empty()),
{
    lemma_streamify_then_bufferize(bufs, rank, t0);
    lemma_streamify_retimed(bufs, rank, 0, t0);
}

/// The entries `data` read `n` times over.
pub open spec fn read_times<T>(data: Seq<T>, n: nat) -> Seq<T>
    decreases n,
{
    if n == 0 {
        Seq::empty()
    } else {
        read_times(data, (n - 1) as nat) + data
    }
}

/// Whatever the repeat loops are, what is sent for a buffer are the entries
/// of the buffer in their order, as often as the loops read it.
pub proof fn lemma_streamify_values<T>(b: BufferView<T>, rank: nat, repeat: Seq<usize>, outer: nat, n: nat)
    ensures
        values(streamify_upto(b, rank, repeat, outer, n)) == read_times(b.data, n),
        n == shape_product(repeat) ==> values(streamify_buffer(b, rank, repeat, outer)) == read_times(
            b.data,
            shape_product(repeat),
        ),
    decreases n,
{
    if n == 0 {
        assert(values(streamify_upto(b, rank, repeat, outer, n)) =~= read_times(b.data, n));
    } else {
        lemma_streamify_values(b, rank, repeat, outer, (n - 1) as nat);
        let before = streamify_upto(b, rank, repeat, outer, (n - 1) as nat);
        let one = traversal(b, rank, repeat_bonus(repeat, (n - 1) as nat, outer));
        lemma_traversal_keeps(b, rank, repeat_bonus(repeat, (n - 1) as nat, outer));
        assert(values(before + one) =~= values(before) + values(one));
    }
}

/// Under repeat loops every reading of a buffer sends the entries of the
/// buffer in their order, and changes no stop level but that of the stops
/// that end the buffer.
pub proof fn lemma_traversal_keeps<T>(b: BufferView<T>, rank: nat, bonus: nat)
    ensures
        values(traversal(b, rank, bonus)) == b.data,
        forall|i: int|
            0 <= i < b.data.len() && b.to_stream()[i].level() != rank ==> #[trigger] traversal(b, rank, bonus)[i]
                == b.to_stream()[i],
{
    assert(values(traversal(b, rank, bonus)) =~= b.data);
}

} // verus!
