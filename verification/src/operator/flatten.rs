use vstd::prelude::*;

use super::promote::{lemma_promote_times, promote_level, promote_stream_times, promote_times};
use crate::primitives::elem::{borrowed, borrowed_stream, canonical_stream, Elem, StopType};

verus! {

/// The stop level that `level` becomes when the dimensions `min..=max` are
/// collapsed into one.
pub open spec fn flatten_level(min: nat, max: nat, level: nat) -> nat {
    if level <= min {
        level
    } else if level <= max {
        min
    } else {
        (level - (max - min)) as nat
    }
}

/// The element that `e` becomes when the dimensions `min..=max` are
/// collapsed; a level of `0` is written as a bare value.
pub open spec fn flatten_elem<T>(e: Elem<T>, min: nat, max: nat) -> Elem<T> {
    match e {
        Elem::Val(x) => Elem::Val(x),
        Elem::ValStop(x, s) => Elem::with_level(x, flatten_level(min, max, s as nat)),
    }
}

/// The stream that `s` becomes when the dimensions `min..=max` are collapsed.
pub open spec fn flatten_stream<T>(s: Seq<Elem<T>>, min: nat, max: nat) -> Seq<Elem<T>> {
    Seq::new(s.len(), |i: int| flatten_elem(s[i], min, max))
}

/// Collapsing the dimensions `a..=b` undoes the `b - a` promotions at rank
/// `a` that made them, on every stop level.
pub proof fn lemma_flatten_promote_level(a: nat, b: nat, level: nat)
    requires
        a < b,
    ensures
        flatten_level(a, b, promote_times(a, (b - a) as nat, level)) == level,
{
    lemma_promote_times(a, (b - a) as nat, level);
}

/// Collapsing the two dimensions `a..=a + 1` undoes one promotion at rank `a`
/// or at the rank below it, on every stop level.
pub proof fn lemma_flatten_promote_once(a: nat, rank: nat, level: nat)
    requires
        rank == a || rank + 1 == a,
    ensures
        flatten_level(a, a + 1, promote_level(rank, level)) == level,
{
}

/// Whether promotions at `rank` raise the element: a stop marker above the
/// rank, and at rank `0` a bare value.
pub open spec fn raised_by_promotion<T>(e: Elem<T>, rank: nat) -> bool {
    match e {
        Elem::Val(_) => rank == 0,
        Elem::ValStop(_, l) => l > rank,
    }
}

/// The element with its stop level written the usual way: level `0` as a
/// bare value.
pub open spec fn plain_elem<T>(e: Elem<T>) -> Elem<T> {
    Elem::with_level(e.value(), e.level())
}

/// The stream with every stop level written the usual way.
pub open spec fn plain_stream<T>(s: Seq<Elem<T>>) -> Seq<Elem<T>> {
    Seq::new(s.len(), |i: int| plain_elem(s[i]))
}

/// What `n` promotions at `rank` make of one element.
proof fn lemma_promote_stream_times_at<T>(s: Seq<Elem<T>>, rank: nat, n: nat, i: int)
    requires
        0 <= i < s.len(),
        s[i].level() + n <= u32::MAX,
    ensures
        promote_stream_times(s, rank, n).len() == s.len(),
        promote_stream_times(s, rank, n)[i] == if n > 0 && raised_by_promotion(s[i], rank) {
            Elem::ValStop(s[i].value(), (s[i].level() + n) as u32)
        } else {
            s[i]
        },
    decreases n,
{
    if n > 0 {
        lemma_promote_stream_times_len(s, rank, (n - 1) as nat);
        lemma_promote_stream_times_at(s, rank, (n - 1) as nat, i);
    }
}

/// Promotions keep the length of a stream.
proof fn lemma_promote_stream_times_len<T>(s: Seq<Elem<T>>, rank: nat, n: nat)
    ensures
        promote_stream_times(s, rank, n).len() == s.len(),
    decreases n,
{
    if n > 0 {
        lemma_promote_stream_times_len(s, rank, (n - 1) as nat);
    }
}

/// Collapsing the dimensions `a..=b` of a stream undoes the `b - a`
/// promotions at rank `a` that made them, on every stream whose levels
/// leave room for `b - a` more: every element comes back with its payload
/// and its stop level, level `0` written as a bare value.
pub proof fn lemma_flatten_promote_levels<T>(s: Seq<Elem<T>>, a: nat, b: nat)
    requires
        a < b,
        forall|i: int| 0 <= i < s.len() ==> (#[trigger] s[i]).level() + (b - a) <= u32::MAX,
    ensures
        flatten_stream(promote_stream_times(s, a, (b - a) as nat), a, b) == plain_stream(s),
{
    let n = (b - a) as nat;
    let p = promote_stream_times(s, a, n);
    lemma_promote_stream_times_len(s, a, n);
    assert forall|i: int| 0 <= i < s.len() implies flatten_elem(p[i], a, b) == plain_elem(s[i]) by {
        assert(s[i].level() + (b - a) <= u32::MAX);
        lemma_promote_stream_times_at(s, a, n, i);
    }
    assert(flatten_stream(p, a, b) =~= plain_stream(s));
}

/// Collapsing the dimensions `a..=b` of a stream undoes the `b - a`
/// promotions at rank `a` that made them: a stream without a stop marker of
/// level `0` comes back element for element.
pub proof fn lemma_flatten_promote_stream<T>(s: Seq<Elem<T>>, a: nat, b: nat)
    requires
        a < b,
        canonical_stream(s),
        forall|i: int| 0 <= i < s.len() ==> (#[trigger] s[i]).level() + (b - a) <= u32::MAX,
    ensures
        flatten_stream(promote_stream_times(s, a, (b - a) as nat), a, b) == s,
{
    lemma_flatten_promote_levels(s, a, b);
    assert forall|i: int| 0 <= i < s.len() implies plain_elem(s[i]) == s[i] by {
        assert(s[i].canonical());
    }
    assert(plain_stream(s) =~= s);
}

/// Collapses the dimensions `min_rank..=max_rank` of a stream into one.
pub struct Flatten {
    min_rank: StopType,
    max_rank: StopType,
}

impl Flatten {
    /// The innermost dimension collapsed.
    pub closed spec fn min(&self) -> nat {
        self.min_rank as nat
    }

    /// The outermost dimension collapsed.
    pub closed spec fn max(&self) -> nat {
        self.max_rank as nat
    }

    pub fn new(min_rank: StopType, max_rank: StopType) -> (f: Self)
        requires
            min_rank < max_rank,
        ensures
            f.min() == min_rank,
            f.max() == max_rank,
    {
        Flatten { min_rank, max_rank }
    }

    /// The element to send for the element `e` received.
    pub fn apply<T>(&self, e: Elem<T>) -> (out: Elem<T>)
        requires
            self.min() < self.max(),
        ensures
            out == flatten_elem(e, self.min(), self.max()),
    {
        match e {
            Elem::Val(x) => Elem::Val(x),
            Elem::ValStop(x, s) => {
                let new_rank = if s <= self.min_rank {
                    s
                } else if s <= self.max_rank {
                    self.min_rank
                } else {
                    s - (self.max_rank - self.min_rank)
                };
                if new_rank == 0 {
                    Elem::Val(x)
                } else {
                    Elem::ValStop(x, new_rank)
                }
            },
        }
    }

    /// The whole output stream for the whole input stream.
    pub fn run<'a, T>(&self, input: &'a Vec<Elem<T>>) -> (out: Vec<Elem<&'a T>>)
        requires
            self.min() < self.max(),
        ensures
            borrowed_stream(out@) == flatten_stream(input@, self.min(), self.max()),
    {
        let mut out: Vec<Elem<&'a T>> = Vec::with_capacity(input.len());
        let mut i: usize = 0;
        while i < input.len()
            invariant
                i <= input.len(),
                out.len() == i,
                self.min() < self.max(),
                forall|k: int|
                    0 <= k < i ==> borrowed(#[trigger] out[k]) == flatten_elem(input[k], self.min(), self.max()),
            decreases input.len() - i,
        {
            let e = input[i].as_ref();
            let o = self.apply(e);
            out.push(o);
            i += 1;
        }
        assert(borrowed_stream(out@) =~= flatten_stream(input@, self.min(), self.max()));
        out
    }
}

} // verus!
