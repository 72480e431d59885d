use vstd::prelude::*;

use super::partition::{borrowed_routes, fan, lemma_project_add, project};
use crate::primitives::elem::{borrowed, Elem};

verus! {

/// The targets `0..n` in order.
pub open spec fn all_targets(n: nat) -> Seq<usize> {
    Seq::new(n, |k: int| k as usize)
}

/// Everything that a broadcast to `targets` outputs sends for the stream.
pub open spec fn broadcast_stream<T>(s: Seq<Elem<T>>, targets: nat) -> Seq<(usize, Elem<T>)>
    decreases s.len(),
{
    if s.len() == 0 {
        Seq::empty()
    } else {
        broadcast_stream(s.drop_last(), targets) + fan(all_targets(targets), s.last())
    }
}

/// What target `p` receives of one element sent to the targets `0..n`: the
/// element, once, where `p` is one of them.
pub proof fn lemma_fan_reaches_all<T>(e: Elem<T>, n: nat, p: nat)
    requires
        n <= usize::MAX,
    ensures
        project(fan(all_targets(n), e), p) == if p < n {
            seq![e]
        } else {
            Seq::empty()
        },
    decreases n,
{
    let sent = fan(all_targets(n), e);
    if n > 0 {
        let m = (n - 1) as nat;
        lemma_fan_reaches_all(e, m, p);
        assert(sent.drop_last() =~= fan(all_targets(m), e));
        assert(sent.last() == ((m as usize, e)));
        if p == m {
            assert(Seq::<Elem<T>>::empty().push(e) =~= seq![e]);
        }
    }
}

/// Every target of a broadcast receives the input stream itself: all of its
/// elements, each once, unchanged and in order. An output that is no target
/// receives nothing.
pub proof fn lemma_broadcast_reaches_all<T>(s: Seq<Elem<T>>, targets: nat, p: nat)
    requires
        targets <= usize::MAX,
    ensures
        project(broadcast_stream(s, targets), p) == if p < targets {
            s
        } else {
            Seq::empty()
        },
    decreases s.len(),
{
    if s.len() > 0 {
        let before = broadcast_stream(s.drop_last(), targets);
        let now = fan(all_targets(targets), s.last());
        lemma_broadcast_reaches_all(s.drop_last(), targets, p);
        lemma_fan_reaches_all(s.last(), targets, p);
        lemma_project_add(before, now, p);
        if p < targets {
            assert(s.drop_last() + seq![s.last()] =~= s);
        } else {
            assert(Seq::<Elem<T>>::empty() + Seq::<Elem<T>>::empty() =~= Seq::<Elem<T>>::empty());
        }
    } else {
        assert(s =~= Seq::<Elem<T>>::empty());
    }
}

/// Sends every element of one stream to every one of its targets. An
/// element is sent only once all targets have room for it.
pub struct BroadcastContext {
    targets: usize,
}

impl BroadcastContext {
    /// The number of targets.
    pub closed spec fn targets(&self) -> nat {
        self.targets as nat
    }

    /// A broadcast without targets.
    pub fn new() -> (b: Self)
        ensures
            b.targets() == 0,
    {
        BroadcastContext { targets: 0 }
    }

    /// Registers one more target and returns its number.
    pub fn add_target(&mut self) -> (idx: usize)
        requires
            old(self).targets() < usize::MAX,
        ensures
            idx == old(self).targets(),
            final(self).targets() == old(self).targets() + 1,
    {
        let idx = self.targets;
        self.targets = self.targets + 1;
        idx
    }

    /// Everything sent for the whole input stream, as pairs of target and
    /// element in the order of sending.
    pub fn run<'a, T>(&self, input: &'a Vec<Elem<T>>) -> (out: Vec<(usize, Elem<&'a T>)>)
        ensures
            borrowed_routes(out@) == broadcast_stream(input@, self.targets()),
    {
        let mut out: Vec<(usize, Elem<&'a T>)> = Vec::new();
        let mut i: usize = 0;
        proof {
            assert(input@.subrange(0, 0) =~= Seq::<Elem<T>>::empty());
            assert(borrowed_routes(out@) =~= Seq::<(usize, Elem<T>)>::empty());
        }
        while i < input.len()
            invariant
                i <= input.len(),
                borrowed_routes(out@) == broadcast_stream(input@.subrange(0, i as int), self.targets()),
            decreases input.len() - i,
        {
            let ghost before = out@;
            let ghost em = fan(all_targets(self.targets()), input[i as int]);
            let mut k: usize = 0;
            while k < self.targets
                invariant
                    k <= self.targets,
                    i < input.len(),
                    em == fan(all_targets(self.targets()), input[i as int]),
                    out.len() == before.len() + k,
                    forall|m: int| 0 <= m < before.len() ==> out[m] == before[m],
                    forall|m: int|
                        0 <= m < k ==> (#[trigger] out[before.len() + m]).0 == em[m].0 && borrowed(
                            out[before.len() + m].1,
                        ) == em[m].1,
                decreases self.targets - k,
            {
                out.push((k, input[i].as_ref()));
                k += 1;
            }
            proof {
                let cur = input@.subrange(0, i + 1);
                assert(cur.drop_last() =~= input@.subrange(0, i as int));
                assert(cur.last() == input[i as int]);
                let want = borrowed_routes(before) + em;
                assert forall|m: int| 0 <= m < out.len() implies borrowed_routes(out@)[m] == want[m] by {
                    if m >= before.len() {
                        let d = m - before.len();
                        assert(out[before.len() + d].0 == em[d].0);
                    }
                }
                assert(borrowed_routes(out@) =~= want);
            }
            i += 1;
        }
        assert(input@.subrange(0, input.len() as int) =~= input@);
        out
    }
}

} // verus!
