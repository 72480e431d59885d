use vstd::prelude::*;

use super::parallelize::group_ends;
use super::reassemble::{arrival_views, cursor_views, stream_views};
use super::ProtocolError;
use crate::primitives::elem::{borrowed_stream, Elem, StopType};

verus! {

/// What an input shows when it is asked for its next element.
#[derive(Debug, Clone, Copy, PartialEq, Eq)]
pub enum Peek {
    /// An element that was sent at the given cycle.
    Something(u64),
    /// Nothing yet.
    Nothing,
    /// Nothing ever again.
    Closed,
}

/// What a merge does next.
#[derive(Debug, Clone, Copy, PartialEq, Eq)]
pub enum MergeDecision {
    /// Take one group from this input.
    Take(usize),
    /// Let one cycle pass and ask the silent inputs again.
    Wait,
    /// Every input has ended.
    Finished,
}

/// Among the first `n` entries, the position of the earliest time; of equal
/// times the lowest position.
pub open spec fn earliest_upto(times: Seq<Option<u64>>, n: nat) -> Option<usize>
    decreases n,
{
    if n == 0 {
        None
    } else {
        let prev = earliest_upto(times, (n - 1) as nat);
        match times[n - 1] {
            None => prev,
            Some(t) => match prev {
                None => Some((n - 1) as usize),
                Some(b) => if t < times[b as int].unwrap() {
                    Some((n - 1) as usize)
                } else {
                    prev
                },
            },
        }
    }
}

/// The position found is that of a time that no other time is below, and
/// that no time at a lower position equals.
pub proof fn lemma_earliest(times: Seq<Option<u64>>, n: nat)
    requires
        n <= times.len(),
        n <= usize::MAX,
    ensures
        match earliest_upto(times, n) {
            None => forall|k: int| 0 <= k < n ==> (#[trigger] times[k]) is None,
            Some(b) => {
                &&& b < n
                &&& times[b as int] is Some
                &&& forall|k: int|
                    0 <= k < n && (#[trigger] times[k]) is Some ==> times[b as int].unwrap() <= times[k].unwrap()
                &&& forall|k: int|
                    0 <= k < b && (#[trigger] times[k]) is Some ==> times[b as int].unwrap() < times[k].unwrap()
            },
        },
    decreases n,
{
    if n > 0 {
        lemma_earliest(times, (n - 1) as nat);
    }
}

/// Finds the position of the earliest time; of equal times the lowest one.
pub fn pick_earliest(times: &Vec<Option<u64>>) -> (r: Option<usize>)
    ensures
        r == earliest_upto(times@, times.len() as nat),
{
    let mut best: Option<usize> = None;
    let mut n: usize = 0;
    while n < times.len()
        invariant
            n <= times.len(),
            best == earliest_upto(times@, n as nat),
        decreases times.len() - n,
    {
        proof {
            lemma_earliest(times@, n as nat);
        }
        match times[n] {
            None => {},
            Some(t) => {
                match best {
                    None => {
                        best = Some(n);
                    },
                    Some(b) => {
                        let bt = match times[b] {
                            Some(v) => v,
                            None => vstd::pervasive::unreached(),
                        };
                        if t < bt {
                            best = Some(n);
                        }
                    },
                }
            },
        }
        n += 1;
    }
    best
}

/// The times of the elements that the inputs show.
pub open spec fn peek_times(peeks: Seq<Peek>) -> Seq<Option<u64>> {
    Seq::new(
        peeks.len(),
        |k: int|
            match peeks[k] {
                Peek::Something(t) => Some(t),
                _ => None,
            },
    )
}

/// What a merge does at cycle `now` when its inputs show `peeks`: it takes
/// from the input whose element is earliest, unless an input that is still
/// silent could bring an earlier one; it ends when every input has ended.
pub open spec fn merge_decision(peeks: Seq<Peek>, now: u64) -> MergeDecision {
    match earliest_upto(peek_times(peeks), peeks.len()) {
        Some(idx) => if (exists|k: int| 0 <= k < peeks.len() && (#[trigger] peeks[k]) is Nothing) && now
            < peek_times(peeks)[idx as int].unwrap() {
            MergeDecision::Wait
        } else {
            MergeDecision::Take(idx)
        },
        None => if forall|k: int| 0 <= k < peeks.len() ==> (#[trigger] peeks[k]) is Closed {
            MergeDecision::Finished
        } else {
            MergeDecision::Wait
        },
    }
}

/// Where the group that starts at position `c` of an input ends.
pub enum MergeEnd {
    /// Behind the element before this position, which closes the group.
    End(int),
    /// The input ends inside the group.
    Closed,
    /// The element at this position has a stop above the rank.
    Above(int),
}

/// Where the group that starts at position `c` ends.
pub open spec fn merge_end<T>(rank: nat, s: Seq<Elem<T>>, c: int) -> MergeEnd
    decreases s.len() - c,
{
    if c < 0 || c >= s.len() {
        MergeEnd::Closed
    } else {
        match group_ends(rank, s[c].stop()) {
            Err(_) => MergeEnd::Above(c),
            Ok(true) => MergeEnd::End(c + 1),
            Ok(false) => merge_end(rank, s, c + 1),
        }
    }
}

/// What a merge sent: the merged stream, the input that every group was
/// taken from, and the violation that ended the run, if one did.
pub struct Merged<T> {
    pub out: Seq<Elem<T>>,
    pub picks: Seq<usize>,
    pub err: Option<ProtocolError>,
}

impl<T> Merged<T> {
    /// The run that first sends `pre` for the picks `picked` and then goes
    /// on as `self`.
    pub open spec fn after(self, pre: Seq<Elem<T>>, picked: Seq<usize>) -> Merged<T> {
        Merged { out: pre + self.out, picks: picked + self.picks, err: self.err }
    }
}

/// The arrival time of the element that every input shows next, if it shows
/// one.
pub open spec fn head_times<T>(inputs: Seq<Seq<Elem<T>>>, arrivals: Seq<Seq<u64>>, cursors: Seq<int>) -> Seq<
    Option<u64>,
> {
    Seq::new(
        inputs.len(),
        |p: int|
            if 0 <= cursors[p] < inputs[p].len() {
                Some(arrivals[p][cursors[p]])
            } else {
                None
            },
    )
}

/// The number of elements that the first `n` inputs still hold.
pub open spec fn remaining<T>(inputs: Seq<Seq<Elem<T>>>, cursors: Seq<int>, n: nat) -> int
    decreases n,
{
    if n == 0 {
        0
    } else {
        remaining(inputs, cursors, (n - 1) as nat) + (inputs[n - 1].len() - cursors[n - 1])
    }
}

/// The run of a merge from the state `cursors` on, for at most `fuel`
/// groups.
pub open spec fn merge_from<T>(
    rank: nat,
    inputs: Seq<Seq<Elem<T>>>,
    arrivals: Seq<Seq<u64>>,
    cursors: Seq<int>,
    fuel: nat,
) -> Merged<T>
    decreases fuel,
{
    if fuel == 0 {
        Merged { out: Seq::empty(), picks: Seq::empty(), err: None }
    } else {
        match earliest_upto(head_times(inputs, arrivals, cursors), inputs.len()) {
            None => Merged { out: Seq::empty(), picks: Seq::empty(), err: None },
            Some(p) => {
                let c = cursors[p as int];
                let s = inputs[p as int];
                match merge_end(rank, s, c) {
                    MergeEnd::Closed => Merged { out: s.subrange(c, s.len() as int), picks: seq![p], err: None },
                    MergeEnd::Above(k) => Merged {
                        out: s.subrange(c, k),
                        picks: seq![p],
                        err: Some(ProtocolError::LevelAboveRank),
                    },
                    MergeEnd::End(end) => merge_from(
                        rank,
                        inputs,
                        arrivals,
                        cursors.update(p as int, end),
                        (fuel - 1) as nat,
                    ).after(s.subrange(c, end), seq![p]),
                }
            },
        }
    }
}

/// The run of a merge over whole input streams: group by group from the
/// input whose next element arrived earliest, of equal arrivals from the
/// input of the lowest position.
pub open spec fn merge_stream<T>(rank: nat, inputs: Seq<Seq<Elem<T>>>, arrivals: Seq<Seq<u64>>) -> Merged<T> {
    let zeros = Seq::new(inputs.len(), |p: int| 0int);
    merge_from(rank, inputs, arrivals, zeros, remaining(inputs, zeros, inputs.len()) as nat)
}

/// Reading input `p` further lowers what remains by as much.
pub proof fn lemma_remaining_update<T>(inputs: Seq<Seq<Elem<T>>>, cursors: Seq<int>, n: nat, p: int, end: int)
    requires
        n <= inputs.len(),
        cursors.len() == inputs.len(),
        0 <= p < inputs.len(),
    ensures
        remaining(inputs, cursors.update(p, end), n) == remaining(inputs, cursors, n) - if p < n {
            end - cursors[p]
        } else {
            0
        },
    decreases n,
{
    if n > 0 {
        lemma_remaining_update(inputs, cursors, (n - 1) as nat, p, end);
    }
}

/// What remains is at least what one input still holds.
pub proof fn lemma_remaining_lower<T>(inputs: Seq<Seq<Elem<T>>>, cursors: Seq<int>, n: nat, p: int)
    requires
        n <= inputs.len(),
        cursors.len() == inputs.len(),
        forall|q: int| 0 <= q < inputs.len() ==> #[trigger] cursors[q] <= inputs[q].len(),
    ensures
        remaining(inputs, cursors, n) >= 0,
        0 <= p < n ==> remaining(inputs, cursors, n) >= inputs[p].len() - cursors[p],
    decreases n,
{
    if n > 0 {
        lemma_remaining_lower(inputs, cursors, (n - 1) as nat, p);
        assert(cursors[n - 1] <= inputs[n - 1].len());
    }
}

/// A group ends behind where it starts.
pub proof fn lemma_merge_end_after<T>(rank: nat, s: Seq<Elem<T>>, c: int)
    requires
        0 <= c,
    ensures
        merge_end(rank, s, c) matches MergeEnd::End(end) ==> c < end <= s.len(),
        merge_end(rank, s, c) matches MergeEnd::Above(k) ==> c <= k < s.len(),
    decreases s.len() - c,
{
    if c < s.len() {
        if group_ends(rank, s[c].stop()) == Ok::<bool, ProtocolError>(false) {
            lemma_merge_end_after(rank, s, c + 1);
        }
    }
}

/// What to do at cycle `now` when the inputs show `peeks`: take from the
/// input whose element came first, the lowest such input on a tie; wait
/// while an input that is silent may still show an earlier one; finish when
/// all inputs are closed.
pub fn decide_among(peeks: &Vec<Peek>, now: u64) -> (d: MergeDecision)
    ensures
        d == merge_decision(peeks@, now),
{
    let mut times: Vec<Option<u64>> = Vec::with_capacity(peeks.len());
    let mut silent = false;
    let mut all_closed = true;
    let mut k: usize = 0;
    while k < peeks.len()
        invariant
            k <= peeks.len(),
            times.len() == k,
            forall|m: int| 0 <= m < k ==> times[m] == peek_times(peeks@)[m],
            silent == (exists|m: int| 0 <= m < k && (#[trigger] peeks[m]) is Nothing),
            all_closed == (forall|m: int| 0 <= m < k ==> (#[trigger] peeks[m]) is Closed),
        decreases peeks.len() - k,
    {
        match peeks[k] {
            Peek::Something(t) => {
                times.push(Some(t));
                all_closed = false;
            },
            Peek::Nothing => {
                times.push(None);
                silent = true;
                all_closed = false;
            },
            Peek::Closed => {
                times.push(None);
            },
        }
        k += 1;
    }
    assert(times@ =~= peek_times(peeks@));
    match pick_earliest(&times) {
        Some(idx) => {
            proof {
                lemma_earliest(times@, times.len() as nat);
            }
            let t = match times[idx] {
                Some(v) => v,
                None => vstd::pervasive::unreached(),
            };
            if silent && now < t {
                MergeDecision::Wait
            } else {
                MergeDecision::Take(idx)
            }
        },
        None => {
            if all_closed {
                MergeDecision::Finished
            } else {
                MergeDecision::Wait
            }
        },
    }
}

/// Merges several streams into one, group by group of rank `input_rank`,
/// always from the input whose next element is the earliest.
pub struct EagerMerge {
    input_rank: StopType,
    inputs: usize,
}

impl EagerMerge {
    /// The rank of a group.
    pub closed spec fn rank(&self) -> nat {
        self.input_rank as nat
    }

    /// The number of inputs.
    pub closed spec fn inputs(&self) -> nat {
        self.inputs as nat
    }

    pub fn new(input_rank: StopType, inputs: usize) -> (m: Self)
        ensures
            m.rank() == input_rank,
            m.inputs() == inputs,
    {
        EagerMerge { input_rank, inputs }
    }

    /// What to do at cycle `now` when the inputs show `peeks`.
    pub fn decide(&self, peeks: &Vec<Peek>, now: u64) -> (d: MergeDecision)
        ensures
            d == merge_decision(peeks@, now),
    {
        decide_among(peeks, now)
    }

    /// The picks to send on the selector stream for a group taken from
    /// input `idx`.
    pub fn selection(&self, idx: usize) -> (sel: Vec<usize>)
        ensures
            sel@ == seq![idx],
    {
        let mut sel: Vec<usize> = Vec::with_capacity(1);
        sel.push(idx);
        sel
    }

    /// Whether a data element under the marker `stop` ends the group that is
    /// taken; an element that does not costs one cycle.
    pub fn step(&self, stop: Option<StopType>) -> (r: Result<bool, ProtocolError>)
        ensures
            r == group_ends(self.rank(), stop),
    {
        match stop {
            None => Ok(self.input_rank == 0),
            Some(l) => {
                if l > self.input_rank {
                    Err(ProtocolError::LevelAboveRank)
                } else {
                    Ok(l == self.input_rank)
                }
            },
        }
    }

    /// The merged stream and the input of every group for whole input
    /// streams; `arrivals` holds the arrival time of every input element.
    pub fn run<'a, T>(&self, inputs: &'a Vec<Vec<Elem<T>>>, arrivals: &Vec<Vec<u64>>) -> (r: Result<
        (Vec<Elem<&'a T>>, Vec<usize>),
        ProtocolError,
    >)
        requires
            arrivals.len() == inputs.len(),
            forall|p: int| 0 <= p < inputs.len() ==> (#[trigger] arrivals[p]).len() == inputs[p].len(),
        ensures
            match r {
                Ok((out, picks)) => {
                    let m = merge_stream(self.rank(), stream_views(inputs@), arrival_views(arrivals@));
                    m.err is None && borrowed_stream(out@) == m.out && picks@ == m.picks
                },
                Err(e) => merge_stream(self.rank(), stream_views(inputs@), arrival_views(arrivals@)).err == Some(
                    e,
                ),
            },
    {
        let ghost ins = stream_views(inputs@);
        let ghost arrs = arrival_views(arrivals@);
        let ghost total = merge_stream(self.rank(), ins, arrs);
        let mut out: Vec<Elem<&'a T>> = Vec::new();
        let mut picks: Vec<usize> = Vec::new();
        let mut cursors: Vec<usize> = Vec::with_capacity(inputs.len());
        let mut p: usize = 0;
        while p < inputs.len()
            invariant
                p <= inputs.len(),
                cursors.len() == p,
                forall|k: int| 0 <= k < p ==> cursors[k] == 0,
            decreases inputs.len() - p,
        {
            cursors.push(0);
            p += 1;
        }
        let ghost mut fuel: nat = remaining(ins, cursor_views(cursors@), ins.len()) as nat;
        proof {
            assert(cursor_views(cursors@) =~= Seq::new(inputs.len() as nat, |p: int| 0int));
            lemma_remaining_lower(ins, cursor_views(cursors@), ins.len(), 0);
            assert(borrowed_stream(out@) =~= Seq::<Elem<T>>::empty());
            assert(Seq::<Elem<T>>::empty() + total.out =~= total.out);
            assert(Seq::<usize>::empty() + total.picks =~= total.picks);
        }
        loop
            invariant
                ins == stream_views(inputs@),
                arrs == arrival_views(arrivals@),
                arrivals.len() == inputs.len(),
                cursors.len() == inputs.len(),
                forall|p: int| 0 <= p < inputs.len() ==> (#[trigger] arrivals[p]).len() == inputs[p].len(),
                forall|p: int| 0 <= p < inputs.len() ==> (#[trigger] cursors[p]) <= inputs[p].len(),
                fuel >= remaining(ins, cursor_views(cursors@), ins.len()),
                total == merge_stream(self.rank(), ins, arrs),
                total == merge_from(self.rank(), ins, arrs, cursor_views(cursors@), fuel).after(
                    borrowed_stream(out@),
                    picks@,
                ),
            decreases fuel,
        {
            let ghost cv = cursor_views(cursors@);
            let ghost rest = merge_from(self.rank(), ins, arrs, cv, fuel);
            let ghost before = borrowed_stream(out@);
            let ghost picked = picks@;
            let mut heads: Vec<Option<u64>> = Vec::with_capacity(inputs.len());
            let mut k: usize = 0;
            while k < inputs.len()
                invariant
                    k <= inputs.len(),
                    ins == stream_views(inputs@),
                    arrs == arrival_views(arrivals@),
                    cv == cursor_views(cursors@),
                    arrivals.len() == inputs.len(),
                    cursors.len() == inputs.len(),
                    forall|p: int| 0 <= p < inputs.len() ==> (#[trigger] arrivals[p]).len() == inputs[p].len(),
                    heads.len() == k,
                    forall|m: int| 0 <= m < k ==> heads[m] == head_times(ins, arrs, cv)[m],
                decreases inputs.len() - k,
            {
                if cursors[k] < inputs[k].len() {
                    heads.push(Some(arrivals[k][cursors[k]]));
                } else {
                    heads.push(None);
                }
                k += 1;
            }
            assert(heads@ =~= head_times(ins, arrs, cv));
            let idx = match pick_earliest(&heads) {
                None => {
                    proof {
                        lemma_remaining_lower(ins, cv, ins.len(), 0);
                        assert(rest.out =~= Seq::<Elem<T>>::empty() && rest.picks =~= Seq::<usize>::empty());
                        assert(before + rest.out =~= before);
                        assert(picked + rest.picks =~= picked);
                    }
                    return Ok((out, picks));
                },
                Some(idx) => idx,
            };
            proof {
                lemma_earliest(heads@, heads.len() as nat);
                lemma_remaining_lower(ins, cv, ins.len(), idx as int);
                assert(cv[idx as int] < ins[idx as int].len());
                assert(fuel > 0);
            }
            let stream = &inputs[idx];
            let c0 = cursors[idx];
            let mut c: usize = c0;
            let mut end_kind: u8 = 0;
            let ghost group_before = out@;
            proof {
                assert(ins[idx as int] == stream@);
                assert(borrowed_stream(out@) + stream@.subrange(c0 as int, c as int) =~= borrowed_stream(out@));
            }
            while c < stream.len() && end_kind == 0
                invariant
                    c0 <= c <= stream.len(),
                    end_kind == 0 ==> merge_end(self.rank(), stream@, c0 as int) == merge_end(
                        self.rank(),
                        stream@,
                        c as int,
                    ),
                    end_kind == 1 ==> merge_end(self.rank(), stream@, c0 as int) == MergeEnd::End(c as int),
                    end_kind == 2 ==> merge_end(self.rank(), stream@, c0 as int) == MergeEnd::Above(c as int),
                    end_kind <= 2,
                    borrowed_stream(out@) == borrowed_stream(group_before) + stream@.subrange(c0 as int, c as int),
                decreases stream.len() - c, if end_kind == 0 { 1int } else { 0int },
            {
                match self.step(stream[c].stop_marker()) {
                    Err(_) => {
                        end_kind = 2;
                    },
                    Ok(done) => {
                        let e = stream[c].as_ref();
                        proof {
                            super::lemma_borrowed_push(out@, e);
                            assert(borrowed_stream(group_before) + stream@.subrange(c0 as int, c + 1) =~= (
                            borrowed_stream(group_before) + stream@.subrange(c0 as int, c as int)).push(
                                stream[c as int],
                            ));
                        }
                        out.push(e);
                        c += 1;
                        if done {
                            end_kind = 1;
                        }
                    },
                }
            }
            picks.push(idx);
            assert(picks@ =~= picked + seq![idx]);
            if end_kind == 2 {
                assert(rest.err == Some(ProtocolError::LevelAboveRank));
                return Err(ProtocolError::LevelAboveRank);
            }
            if end_kind == 0 {
                proof {
                    assert(merge_end(self.rank(), stream@, c0 as int) == MergeEnd::Closed);
                    assert(rest.out == stream@.subrange(c0 as int, stream.len() as int));
                }
                return Ok((out, picks));
            }
            cursors.set(idx, c);
            proof {
                lemma_merge_end_after(self.rank(), stream@, c0 as int);
                assert(cursor_views(cursors@) =~= cv.update(idx as int, c as int));
                lemma_remaining_update(ins, cv, ins.len(), idx as int, c as int);
                let next = merge_from(self.rank(), ins, arrs, cv.update(idx as int, c as int), (fuel - 1) as nat);
                let part = stream@.subrange(c0 as int, c as int);
                assert(rest == next.after(part, seq![idx]));
                assert(before + (part + next.out) =~= (before + part) + next.out);
                assert(picked + (seq![idx] + next.picks) =~= (picked + seq![idx]) + next.picks);
                fuel = (fuel - 1) as nat;
            }
        }
    }
}

/// From position `c` on, the stream is made of whole groups: each ends with
/// a stop of the rank, and the stream ends behind the last of them.
pub open spec fn whole_groups<T>(rank: nat, s: Seq<Elem<T>>, c: int) -> bool
    decreases s.len() - c,
{
    if c < 0 {
        false
    } else if c >= s.len() {
        c == s.len()
    } else {
        match merge_end(rank, s, c) {
            MergeEnd::End(e) => if c < e <= s.len() {
                whole_groups(rank, s, e)
            } else {
                false
            },
            _ => false,
        }
    }
}

/// The number of groups that the stream holds from position `c` on.
pub open spec fn groups_from<T>(rank: nat, s: Seq<Elem<T>>, c: int) -> nat
    decreases s.len() - c,
{
    if c < 0 || c >= s.len() {
        0
    } else {
        match merge_end(rank, s, c) {
            MergeEnd::End(e) => if c < e <= s.len() {
                1 + groups_from(rank, s, e)
            } else {
                0
            },
            _ => 0,
        }
    }
}

/// The number of groups that the first `n` inputs still hold.
pub open spec fn groups_left<T>(rank: nat, inputs: Seq<Seq<Elem<T>>>, cursors: Seq<int>, n: nat) -> nat
    decreases n,
{
    if n == 0 {
        0
    } else {
        groups_left(rank, inputs, cursors, (n - 1) as nat) + groups_from(rank, inputs[n - 1], cursors[n - 1])
    }
}

/// The stream made by taking, for every pick in turn, the next group of the
/// input that the pick names, whole and unchanged.
pub open spec fn groups_in_order<T>(rank: nat, inputs: Seq<Seq<Elem<T>>>, picks: Seq<usize>, cursors: Seq<int>) -> Seq<
    Elem<T>,
>
    decreases picks.len(),
{
    if picks.len() == 0 {
        Seq::empty()
    } else {
        let p = picks[0] as int;
        let s = inputs[p];
        let c = cursors[p];
        match merge_end(rank, s, c) {
            MergeEnd::End(e) => s.subrange(c, e) + groups_in_order(
                rank,
                inputs,
                picks.drop_first(),
                cursors.update(p, e),
            ),
            _ => s.subrange(c, s.len() as int),
        }
    }
}

/// Taking one group from input `p` lowers the number of groups left by one.
proof fn lemma_groups_left_update<T>(
    rank: nat,
    inputs: Seq<Seq<Elem<T>>>,
    cursors: Seq<int>,
    n: nat,
    p: int,
    e: int,
)
    requires
        n <= inputs.len(),
        cursors.len() == inputs.len(),
        0 <= p < inputs.len(),
        0 <= cursors[p] < inputs[p].len(),
        merge_end(rank, inputs[p], cursors[p]) == MergeEnd::End(e),
        cursors[p] < e <= inputs[p].len(),
    ensures
        groups_left(rank, inputs, cursors, n) == groups_left(rank, inputs, cursors.update(p, e), n) + if p < n {
            1nat
        } else {
            0nat
        },
    decreases n,
{
    if n > 0 {
        lemma_groups_left_update(rank, inputs, cursors, (n - 1) as nat, p, e);
        if p == n - 1 {
            assert(groups_from(rank, inputs[p], cursors[p]) == 1 + groups_from(rank, inputs[p], e));
        } else {
            assert(cursors.update(p, e)[n - 1] == cursors[n - 1]);
        }
    }
}

/// Inputs that were read to their ends hold no group.
proof fn lemma_no_groups_left<T>(rank: nat, inputs: Seq<Seq<Elem<T>>>, cursors: Seq<int>, n: nat)
    requires
        n <= inputs.len(),
        cursors.len() == inputs.len(),
        forall|q: int| 0 <= q < inputs.len() ==> #[trigger] cursors[q] >= inputs[q].len(),
    ensures
        groups_left(rank, inputs, cursors, n) == 0,
    decreases n,
{
    if n > 0 {
        lemma_no_groups_left(rank, inputs, cursors, (n - 1) as nat);
        assert(cursors[n - 1] >= inputs[n - 1].len());
    }
}

/// The merge of inputs that are made of whole groups, from the state
/// `cursors` on.
proof fn lemma_merge_from_whole<T>(
    rank: nat,
    inputs: Seq<Seq<Elem<T>>>,
    arrivals: Seq<Seq<u64>>,
    cursors: Seq<int>,
    fuel: nat,
)
    requires
        inputs.len() <= usize::MAX,
        cursors.len() == inputs.len(),
        forall|q: int| 0 <= q < inputs.len() ==> whole_groups(rank, inputs[q], #[trigger] cursors[q]),
        fuel >= remaining(inputs, cursors, inputs.len()),
    ensures
        ({
            let m = merge_from(rank, inputs, arrivals, cursors, fuel);
            &&& m.err is None
            &&& m.picks.len() == groups_left(rank, inputs, cursors, inputs.len())
            &&& forall|g: int| 0 <= g < m.picks.len() ==> #[trigger] m.picks[g] < inputs.len()
            &&& m.out == groups_in_order(rank, inputs, m.picks, cursors)
        }),
    decreases fuel,
{
    let n = inputs.len();
    let heads = head_times(inputs, arrivals, cursors);
    let m = merge_from(rank, inputs, arrivals, cursors, fuel);
    lemma_earliest(heads, n);
    assert forall|q: int| 0 <= q < inputs.len() implies 0 <= #[trigger] cursors[q] <= inputs[q].len() by {
        assert(whole_groups(rank, inputs[q], cursors[q]));
    }
    if fuel == 0 {
        assert forall|q: int| 0 <= q < inputs.len() implies #[trigger] cursors[q] >= inputs[q].len() by {
            lemma_remaining_lower(inputs, cursors, n, q);
        }
        lemma_no_groups_left(rank, inputs, cursors, n);
    } else {
        match earliest_upto(heads, n) {
            None => {
                assert forall|q: int| 0 <= q < inputs.len() implies #[trigger] cursors[q] >= inputs[q].len() by {
                    assert(heads[q] is None);
                }
                lemma_no_groups_left(rank, inputs, cursors, n);
            },
            Some(p) => {
                let c = cursors[p as int];
                let s = inputs[p as int];
                assert(heads[p as int] is Some);
                assert(0 <= c < s.len());
                assert(whole_groups(rank, s, c));
                lemma_merge_end_after(rank, s, c);
                let e = merge_end(rank, s, c)->End_0;
                assert(merge_end(rank, s, c) == MergeEnd::End(e));
                let next = cursors.update(p as int, e);
                assert forall|q: int| 0 <= q < inputs.len() implies whole_groups(
                    rank,
                    inputs[q],
                    #[trigger] next[q],
                ) by {
                    if q != p {
                        assert(next[q] == cursors[q]);
                    }
                }
                lemma_remaining_update(inputs, cursors, n, p as int, e);
                lemma_merge_from_whole(rank, inputs, arrivals, next, (fuel - 1) as nat);
                lemma_groups_left_update(rank, inputs, cursors, n, p as int, e);
                let rest = merge_from(rank, inputs, arrivals, next, (fuel - 1) as nat);
                assert(m == rest.after(s.subrange(c, e), seq![p]));
                assert(m.picks.drop_first() =~= rest.picks);
                assert(m.picks[0] == p);
                assert forall|g: int| 0 <= g < m.picks.len() implies #[trigger] m.picks[g] < inputs.len() by {
                    if g > 0 {
                        assert(m.picks[g] == rest.picks[g - 1]);
                    }
                }
            },
        }
    }
}

/// A merge of inputs that are made of whole groups ends in order. What it
/// sends is a sequence of whole groups, none of them mixed with another and
/// each as its input held it; it names one input for every group, as many
/// as the inputs hold groups together, and the group at each place is the
/// next group of the input named at that place.
pub proof fn lemma_merge_takes_whole_groups<T>(rank: nat, inputs: Seq<Seq<Elem<T>>>, arrivals: Seq<Seq<u64>>)
    requires
        inputs.len() <= usize::MAX,
        forall|q: int| 0 <= q < inputs.len() ==> whole_groups(rank, #[trigger] inputs[q], 0),
    ensures
        ({
            let m = merge_stream(rank, inputs, arrivals);
            let zeros = Seq::new(inputs.len(), |p: int| 0int);
            &&& m.err is None
            &&& m.picks.len() == groups_left(rank, inputs, zeros, inputs.len())
            &&& forall|g: int| 0 <= g < m.picks.len() ==> #[trigger] m.picks[g] < inputs.len()
            &&& m.out == groups_in_order(rank, inputs, m.picks, zeros)
        }),
{
    let zeros = Seq::new(inputs.len(), |p: int| 0int);
    assert forall|q: int| 0 <= q < inputs.len() implies whole_groups(rank, inputs[q], #[trigger] zeros[q]) by {
        assert(whole_groups(rank, inputs[q], 0));
    }
    lemma_remaining_lower(inputs, zeros, inputs.len(), 0);
    lemma_merge_from_whole(rank, inputs, arrivals, zeros, remaining(inputs, zeros, inputs.len()) as nat);
}

} // verus!
