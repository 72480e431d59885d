use vstd::prelude::*;

verus! {

/// The ceiling of `a / b` for `b > 0`.
pub open spec fn ceil_div(a: int, b: int) -> int {
    if a % b == 0 {
        a / b
    } else {
        a / b + 1
    }
}

/// Ceiling division of two `u64` values.
pub fn div_ceil(a: u64, b: u64) -> (q: u64)
    requires
        b != 0,
    ensures
        q == ceil_div(a as int, b as int),
        (q as int) * (b as int) >= a as int,
        a > 0 ==> ((q as int) - 1) * (b as int) < a as int,
        a == 0 ==> q == 0,
{
    proof {
        lemma_ceil_div_bounds(a as int, b as int);
    }
    if a % b == 0 {
        return a / b;
    }
    a / b + 1
}

/// `ceil_div(a, b)` is the least `q` with `q * b >= a`, and it fits wherever `a` fits.
pub proof fn lemma_ceil_div_bounds(a: int, b: int)
    requires
        a >= 0,
        b > 0,
    ensures
        0 <= ceil_div(a, b) <= a,
        ceil_div(a, b) * b >= a,
        a > 0 ==> (ceil_div(a, b) - 1) * b < a,
        a == 0 ==> ceil_div(a, b) == 0,
        a % b != 0 ==> a / b < a,
{
    vstd::arithmetic::div_mod::lemma_fundamental_div_mod(a, b);
    vstd::arithmetic::div_mod::lemma_div_pos_is_pos(a, b);
    vstd::arithmetic::div_mod::lemma_mod_bound(a, b);
    let q = a / b;
    let r = a % b;
    assert(a == b * q + r);
    assert(b * q == q * b) by (nonlinear_arith);
    assert((q + 1) * b == q * b + b) by (nonlinear_arith);
    assert((q - 1) * b == q * b - b) by (nonlinear_arith);
    assert(q <= a) by (nonlinear_arith)
        requires
            a == b * q + r,
            r >= 0,
            b >= 1,
            q >= 0,
    ;
    if r != 0 {
        assert(q < a) by (nonlinear_arith)
            requires
                a == b * q + r,
                r > 0,
                b >= 1,
                q >= 0,
        ;
    }
}

/// Every axis of the shape has at least one position.
pub open spec fn all_positive(shape: Seq<usize>) -> bool {
    forall|k: int| 0 <= k < shape.len() ==> #[trigger] shape[k] > 0
}

/// The stop level of the entry at row-major position `i` of an array of the
/// given shape: the number of innermost axes that stand at their last
/// position there.
pub open spec fn stop_level_at(shape: Seq<usize>, i: nat) -> nat
    decreases shape.len(),
{
    if shape.len() == 0 {
        0
    } else {
        let d = shape.last() as nat;
        if d > 0 && i % d == d - 1 {
            1 + stop_level_at(shape.drop_last(), i / d)
        } else {
            0
        }
    }
}

/// A stop level never exceeds the number of axes.
pub proof fn lemma_stop_level_bound(shape: Seq<usize>, i: nat)
    ensures
        stop_level_at(shape, i) <= shape.len(),
    decreases shape.len(),
{
    if shape.len() > 0 {
        let d = shape.last() as nat;
        if d > 0 {
            lemma_stop_level_bound(shape.drop_last(), i / d);
        }
    }
}

/// The stop level of position `flat_index` in an array of shape `shape`:
/// `0` where no axis ends, else the number of innermost axes that end there.
pub fn get_stop_level(flat_index: usize, shape: &[usize]) -> (level: usize)
    requires
        all_positive(shape@),
    ensures
        level == stop_level_at(shape@, flat_index as nat),
        level <= shape@.len(),
{
    let mut level: usize = 0;
    let mut rest: usize = flat_index;
    let mut n: usize = shape.len();
    proof {
        lemma_stop_level_bound(shape@, flat_index as nat);
        assert(shape@.subrange(0, n as int) =~= shape@);
    }
    while n > 0
        invariant
            n <= shape.len(),
            all_positive(shape@),
            level + n <= shape.len(),
            stop_level_at(shape@, flat_index as nat) == level + stop_level_at(
                shape@.subrange(0, n as int),
                rest as nat,
            ),
        decreases n,
    {
        let d = shape[n - 1];
        let ghost cur = shape@.subrange(0, n as int);
        assert(cur.last() == d);
        assert(cur.drop_last() =~= shape@.subrange(0, n - 1));
        assert(d > 0);
        if rest % d != d - 1 {
            return level;
        }
        level += 1;
        rest = rest / d;
        n -= 1;
    }
    assert(shape@.subrange(0, 0).len() == 0);
    level
}

/// The position that row-major position `flat` of an array of shape `shape`
/// takes under the strides `stride`: the sum over the axes of index times
/// stride.
pub open spec fn strided_index(shape: Seq<usize>, stride: Seq<usize>, flat: nat) -> nat
    decreases shape.len(),
{
    if shape.len() == 0 || stride.len() == 0 {
        0
    } else {
        let d = shape.last() as nat;
        if d == 0 {
            0
        } else {
            (flat % d) * (stride.last() as nat) + strided_index(
                shape.drop_last(),
                stride.drop_last(),
                flat / d,
            )
        }
    }
}

} // verus!
