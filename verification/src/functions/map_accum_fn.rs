use vstd::prelude::*;

use super::map_fn::{make_result_tile, matmul_n, matmul_shapes, result_tile};
use crate::primitives::tile::Tile;
use crate::utils::calculation::{ceil_div, div_ceil};

verus! {

/// The accumulator has the shape of the product.
pub open spec fn accumulator_fits(acc: Seq<usize>, s1: Seq<usize>, s2: Seq<usize>, weight_transposed: bool) -> bool {
    acc.len() == 2 && acc[0] == s1[0] && acc[1] == matmul_n(s2, weight_transposed)
}

/// The accumulator has not been given a shape yet.
pub open spec fn accumulator_empty(acc: Seq<usize>) -> bool {
    acc.len() == 2 && (acc[0] == 0 || acc[1] == 0)
}

/// The matrix product of two tiles added to the accumulator: two
/// operations per entry of `M` times `K` times `N`. `sum` holds the entries
/// of the new accumulator, row by row, where values are simulated; the
/// accumulator then has to hold values too.
pub fn matmul<T>(
    in1: &Tile<T>,
    in2: &Tile<T>,
    accumulator: &Tile<T>,
    flop_per_cycle: u64,
    write_back_mu: bool,
    weight_transposed: bool,
    sum: Option<Vec<T>>,
) -> (r: (u64, Tile<T>))
    requires
        matmul_shapes(in1@.shape, in2@.shape, weight_transposed),
        accumulator_fits(accumulator@.shape, in1@.shape, in2@.shape, weight_transposed),
        in1.bytes_per_elem == in2.bytes_per_elem,
        flop_per_cycle != 0,
        2 * in1.shape[0] * in1.shape[1] * matmul_n(in2@.shape, weight_transposed) <= usize::MAX,
        2 * in1.shape[0] <= usize::MAX,
        2 * in1.shape[0] * in1.shape[1] <= usize::MAX,
        sum is Some <==> (in1.underlying is Some && in2.underlying is Some),
        sum is Some ==> accumulator.underlying is Some,
    ensures
        r.0 == ceil_div(
            2 * in1.shape[0] * in1.shape[1] * matmul_n(in2@.shape, weight_transposed),
            flop_per_cycle as int,
        ),
        r.1@ == result_tile(
            in1.shape[0],
            matmul_n(in2@.shape, weight_transposed),
            in1.bytes_per_elem,
            write_back_mu,
            in1.offset,
            match sum {
                Some(d) => Some(d@),
                None => None,
            },
        ),
{
    let m = in1.shape[0];
    let k = in1.shape[1];
    let n = if !weight_transposed {
        in2.shape[1]
    } else {
        in2.shape[0]
    };
    let flops: usize = 2 * m * k * n;
    (div_ceil(flops as u64, flop_per_cycle), make_result_tile(m, n, in1.bytes_per_elem, write_back_mu, in1.offset, sum))
}

/// As `matmul`, for an accumulator that takes its shape from the first
/// product: an accumulator with an axis of length zero is replaced by the
/// product and not added to.
pub fn dyn_matmul<T>(
    in1: &Tile<T>,
    in2: &Tile<T>,
    accumulator: &Tile<T>,
    flop_per_cycle: u64,
    write_back_mu: bool,
    weight_transposed: bool,
    sum: Option<Vec<T>>,
) -> (r: (u64, Tile<T>))
    requires
        matmul_shapes(in1@.shape, in2@.shape, weight_transposed),
        accumulator_empty(accumulator@.shape) || accumulator_fits(
            accumulator@.shape,
            in1@.shape,
            in2@.shape,
            weight_transposed,
        ),
        in1.bytes_per_elem == in2.bytes_per_elem,
        flop_per_cycle != 0,
        2 * in1.shape[0] * in1.shape[1] * matmul_n(in2@.shape, weight_transposed) <= usize::MAX,
        2 * in1.shape[0] <= usize::MAX,
        2 * in1.shape[0] * in1.shape[1] <= usize::MAX,
        sum is Some <==> (in1.underlying is Some && in2.underlying is Some),
        sum is Some ==> accumulator.underlying is Some,
    ensures
        r.0 == ceil_div(
            2 * in1.shape[0] * in1.shape[1] * matmul_n(in2@.shape, weight_transposed),
            flop_per_cycle as int,
        ),
        r.1@ == result_tile(
            in1.shape[0],
            matmul_n(in2@.shape, weight_transposed),
            in1.bytes_per_elem,
            write_back_mu,
            in1.offset,
            match sum {
                Some(d) => Some(d@),
                None => None,
            },
        ),
{
    let m = in1.shape[0];
    let k = in1.shape[1];
    let n = if !weight_transposed {
        in2.shape[1]
    } else {
        in2.shape[0]
    };
    let flops: usize = 2 * m * k * n;
    (div_ceil(flops as u64, flop_per_cycle), make_result_tile(m, n, in1.bytes_per_elem, write_back_mu, in1.offset, sum))
}

/// Whether an accumulating matrix product adds to the accumulator; else it
/// replaces it.
pub fn adds_to_accumulator<T>(accumulator: &Tile<T>) -> (b: bool)
    requires
        accumulator.shape.len() == 2,
    ensures
        b == !accumulator_empty(accumulator@.shape),
{
    !(accumulator.shape[0] == 0 || accumulator.shape[1] == 0)
}

} // verus!
