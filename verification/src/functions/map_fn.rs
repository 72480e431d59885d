use vstd::prelude::*;

use crate::memory::metadata_gen::{make_number_tile, number_tile, read_number_tile};
use crate::primitives::tile::{copy_vec, Tile, TileView};
use crate::utils::calculation::{ceil_div, div_ceil};

verus! {

/// The larger of two numbers.
pub open spec fn larger(a: usize, b: usize) -> usize {
    if a >= b {
        a
    } else {
        b
    }
}

/// The smaller of two numbers.
pub open spec fn smaller(a: int, b: int) -> int {
    if a <= b {
        a
    } else {
        b
    }
}

/// The two tiles hold no values, or every axis of both has a position.
pub open spec fn values_indexable<T>(in1: TileView<T>, in2: TileView<T>) -> bool {
    in1.underlying is Some && in2.underlying is Some ==> in1.shape[0] >= 1 && in1.shape[1] >= 1 && in2.shape[0] >= 1
        && in2.shape[1] >= 1
}

/// Two shapes can be combined entry by entry: on every axis the lengths are
/// equal, or one of them is one and stands for all positions.
pub open spec fn broadcastable(s1: Seq<usize>, s2: Seq<usize>) -> bool {
    &&& s1.len() == 2
    &&& s2.len() == 2
    &&& (s1[0] == s2[0] || s1[0] == 1 || s2[0] == 1)
    &&& (s1[1] == s2[1] || s1[1] == 1 || s2[1] == 1)
}

/// The number of rows of the result that are data.
pub open spec fn broadcast_offset<T>(in1: TileView<T>, in2: TileView<T>) -> usize {
    if in1.shape[0] == in2.shape[0] {
        larger(in1.offset, in2.offset)
    } else if in1.shape[0] == 1 {
        in2.offset
    } else {
        in1.offset
    }
}

/// Whether `out` holds, row by row, what `op` makes of the entries of two
/// tiles of the shapes `s1` and `s2`, an axis of length one standing for all
/// positions.
pub open spec fn combined<T, F: Fn(T, T) -> T>(
    op: F,
    s1: Seq<usize>,
    d1: Seq<T>,
    s2: Seq<usize>,
    d2: Seq<T>,
    out: Seq<T>,
) -> bool {
    let rows = larger(s1[0], s2[0]) as int;
    let cols = larger(s1[1], s2[1]) as int;
    &&& out.len() == rows * cols
    &&& forall|i: int, j: int|
        0 <= i < rows && 0 <= j < cols ==> op.ensures(
            (
                d1[smaller(i, s1[0] - 1) * s1[1] + smaller(j, s1[1] - 1)],
                d2[smaller(i, s2[0] - 1) * s2[1] + smaller(j, s2[1] - 1)],
            ),
            #[trigger] out[i * cols + j],
        )
}

/// What an operation that combines two tiles entry by entry gives: the
/// cycles, one per `flop_per_cycle` entries, and the tile.
pub open spec fn elementwise_result<T, F: Fn(T, T) -> T>(
    op: F,
    in1: TileView<T>,
    in2: TileView<T>,
    flop_per_cycle: u64,
    write_back_mu: bool,
    offset: usize,
    r: (u64, TileView<T>),
) -> bool {
    let rows = larger(in1.shape[0], in2.shape[0]);
    let cols = larger(in1.shape[1], in2.shape[1]);
    &&& r.0 == ceil_div(rows * cols, flop_per_cycle as int)
    &&& r.1.shape == seq![rows, cols]
    &&& r.1.bytes_per_elem == in1.bytes_per_elem
    &&& r.1.read_from_mu == write_back_mu
    &&& r.1.offset == offset
    &&& match (in1.underlying, in2.underlying) {
        (Some(d1), Some(d2)) => r.1.underlying is Some && combined(
            op,
            in1.shape,
            d1,
            in2.shape,
            d2,
            r.1.underlying.unwrap(),
        ),
        _ => r.1.underlying is None,
    }
}

/// Combines two tiles entry by entry with `op`; the result has `offset`
/// rows that are data.
pub fn elementwise<T: Copy, F: Fn(T, T) -> T>(
    in1: &Tile<T>,
    in2: &Tile<T>,
    flop_per_cycle: u64,
    write_back_mu: bool,
    offset: usize,
    op: F,
) -> (r: (u64, Tile<T>))
    requires
        in1@.wf(),
        in2@.wf(),
        broadcastable(in1@.shape, in2@.shape),
        values_indexable(in1@, in2@),
        flop_per_cycle != 0,
        larger(in1.shape[0], in2.shape[0]) * larger(in1.shape[1], in2.shape[1]) <= usize::MAX,
        forall|a: T, b: T| #[trigger] op.requires((a, b)),
    ensures
        elementwise_result(op, in1@, in2@, flop_per_cycle, write_back_mu, offset, (r.0, r.1@)),
        r.1@.wf(),
{
    let r1 = in1.shape[0];
    let c1 = in1.shape[1];
    let r2 = in2.shape[0];
    let c2 = in2.shape[1];
    let rows = if r1 >= r2 {
        r1
    } else {
        r2
    };
    let cols = if c1 >= c2 {
        c1
    } else {
        c2
    };
    let total: usize = rows * cols;
    let cycles = div_ceil(total as u64, flop_per_cycle);
    let mut shape: Vec<usize> = Vec::with_capacity(2);
    shape.push(rows);
    shape.push(cols);
    assert(shape@ =~= seq![rows, cols]);
    let underlying: Option<Vec<T>> = match (&in1.underlying, &in2.underlying) {
        (Some(d1), Some(d2)) => {
            let mut out: Vec<T> = Vec::with_capacity(total);
            let mut i: usize = 0;
            assert(0 * cols == 0) by (nonlinear_arith);
            while i < rows
                invariant
                    i <= rows,
                    rows == larger(r1, r2),
                    cols == larger(c1, c2),
                    rows * cols <= usize::MAX,
                    broadcastable(seq![r1, c1], seq![r2, c2]),
                    r1 >= 1 && c1 >= 1 && r2 >= 1 && c2 >= 1,
                    d1.len() == r1 * c1,
                    d2.len() == r2 * c2,
                    forall|a: T, b: T| #[trigger] op.requires((a, b)),
                    out.len() == i * cols,
                    forall|p: int, q: int|
                        0 <= p < i && 0 <= q < cols ==> op.ensures(
                            (
                                d1[smaller(p, r1 - 1) * c1 + smaller(q, c1 - 1)],
                                d2[smaller(p, r2 - 1) * c2 + smaller(q, c2 - 1)],
                            ),
                            #[trigger] out[p * cols + q],
                        ),
                decreases rows - i,
            {
                let mut j: usize = 0;
                let ghost row_start = out@;
                while j < cols
                    invariant
                        j <= cols,
                        i < rows,
                        rows == larger(r1, r2),
                        cols == larger(c1, c2),
                        rows * cols <= usize::MAX,
                        broadcastable(seq![r1, c1], seq![r2, c2]),
                        r1 >= 1 && c1 >= 1 && r2 >= 1 && c2 >= 1,
                        d1.len() == r1 * c1,
                        d2.len() == r2 * c2,
                        forall|a: T, b: T| #[trigger] op.requires((a, b)),
                        row_start.len() == i * cols,
                        out.len() == i * cols + j,
                        forall|m: int| 0 <= m < row_start.len() ==> out[m] == row_start[m],
                        forall|q: int|
                            0 <= q < j ==> op.ensures(
                                (
                                    d1[smaller(i as int, r1 - 1) * c1 + smaller(q, c1 - 1)],
                                    d2[smaller(i as int, r2 - 1) * c2 + smaller(q, c2 - 1)],
                                ),
                                #[trigger] out[i * cols + q],
                            ),
                    decreases cols - j,
                {
                    let i0 = if i < r1 {
                        i
                    } else {
                        r1 - 1
                    };
                    let j0 = if j < c1 {
                        j
                    } else {
                        c1 - 1
                    };
                    let i1 = if i < r2 {
                        i
                    } else {
                        r2 - 1
                    };
                    let j1 = if j < c2 {
                        j
                    } else {
                        c2 - 1
                    };
                    proof {
                        assert(i0 * c1 + j0 < r1 * c1) by (nonlinear_arith)
                            requires
                                0 <= i0 < r1,
                                0 <= j0 < c1,
                        ;
                        assert(i1 * c2 + j1 < r2 * c2) by (nonlinear_arith)
                            requires
                                0 <= i1 < r2,
                                0 <= j1 < c2,
                        ;
                        assert(i0 == smaller(i as int, r1 - 1) && j0 == smaller(j as int, c1 - 1));
                        assert(i1 == smaller(i as int, r2 - 1) && j1 == smaller(j as int, c2 - 1));
                    }
                    let v = op(d1[i0 * c1 + j0], d2[i1 * c2 + j1]);
                    out.push(v);
                    j += 1;
                }
                proof {
                    assert((i + 1) * cols == i * cols + cols) by (nonlinear_arith);
                    assert forall|p: int, q: int| 0 <= p < i + 1 && 0 <= q < cols implies op.ensures(
                        (
                            d1[smaller(p, r1 - 1) * c1 + smaller(q, c1 - 1)],
                            d2[smaller(p, r2 - 1) * c2 + smaller(q, c2 - 1)],
                        ),
                        #[trigger] out[p * cols + q],
                    ) by {
                        if p < i {
                            assert(p * cols + q < i * cols) by (nonlinear_arith)
                                requires
                                    0 <= p < i,
                                    0 <= q < cols,
                            ;
                            assert(out[p * cols + q] == row_start[p * cols + q]);
                        }
                    }
                }
                i += 1;
            }
            Some(out)
        },
        _ => None,
    };
    let t = Tile { shape, bytes_per_elem: in1.bytes_per_elem, read_from_mu: write_back_mu, underlying, offset };
    proof {
        assert(in1@.shape =~= seq![r1, c1]);
        assert(in2@.shape =~= seq![r2, c2]);
    }
    (cycles, t)
}

/// The offset of the result of `mul`, `add` and `div`.
fn offset_for<T>(in1: &Tile<T>, in2: &Tile<T>) -> (o: usize)
    requires
        in1.shape.len() == 2,
        in2.shape.len() == 2,
    ensures
        o == broadcast_offset(in1@, in2@),
{
    if in1.shape[0] == in2.shape[0] {
        if in1.offset >= in2.offset {
            in1.offset
        } else {
            in2.offset
        }
    } else if in1.shape[0] == 1 {
        in2.offset
    } else {
        in1.offset
    }
}

/// The quotient of two tiles entry by entry; `op` divides two entries.
pub fn div<T: Copy, F: Fn(T, T) -> T>(in1: &Tile<T>, in2: &Tile<T>, flop_per_cycle: u64, write_back_mu: bool, op: F) -> (r:
    (u64, Tile<T>))
    requires
        in1@.wf(),
        in2@.wf(),
        broadcastable(in1@.shape, in2@.shape),
        values_indexable(in1@, in2@),
        flop_per_cycle != 0,
        larger(in1.shape[0], in2.shape[0]) * larger(in1.shape[1], in2.shape[1]) <= usize::MAX,
        forall|a: T, b: T| #[trigger] op.requires((a, b)),
    ensures
        elementwise_result(
            op,
            in1@,
            in2@,
            flop_per_cycle,
            write_back_mu,
            broadcast_offset(in1@, in2@),
            (r.0, r.1@),
        ),
        r.1@.wf(),
{
    let offset = offset_for(in1, in2);
    elementwise(in1, in2, flop_per_cycle, write_back_mu, offset, op)
}

/// The product of two tiles entry by entry; `op` multiplies two entries.
pub fn mul<T: Copy, F: Fn(T, T) -> T>(in1: &Tile<T>, in2: &Tile<T>, flop_per_cycle: u64, write_back_mu: bool, op: F) -> (r:
    (u64, Tile<T>))
    requires
        in1@.wf(),
        in2@.wf(),
        broadcastable(in1@.shape, in2@.shape),
        values_indexable(in1@, in2@),
        flop_per_cycle != 0,
        larger(in1.shape[0], in2.shape[0]) * larger(in1.shape[1], in2.shape[1]) <= usize::MAX,
        forall|a: T, b: T| #[trigger] op.requires((a, b)),
    ensures
        elementwise_result(
            op,
            in1@,
            in2@,
            flop_per_cycle,
            write_back_mu,
            broadcast_offset(in1@, in2@),
            (r.0, r.1@),
        ),
        r.1@.wf(),
{
    let offset = offset_for(in1, in2);
    elementwise(in1, in2, flop_per_cycle, write_back_mu, offset, op)
}

/// The sum of two tiles entry by entry; `op` adds two entries.
pub fn add<T: Copy, F: Fn(T, T) -> T>(in1: &Tile<T>, in2: &Tile<T>, flop_per_cycle: u64, write_back_mu: bool, op: F) -> (r:
    (u64, Tile<T>))
    requires
        in1@.wf(),
        in2@.wf(),
        broadcastable(in1@.shape, in2@.shape),
        values_indexable(in1@, in2@),
        flop_per_cycle != 0,
        larger(in1.shape[0], in2.shape[0]) * larger(in1.shape[1], in2.shape[1]) <= usize::MAX,
        forall|a: T, b: T| #[trigger] op.requires((a, b)),
    ensures
        elementwise_result(
            op,
            in1@,
            in2@,
            flop_per_cycle,
            write_back_mu,
            broadcast_offset(in1@, in2@),
            (r.0, r.1@),
        ),
        r.1@.wf(),
{
    let offset = offset_for(in1, in2);
    elementwise(in1, in2, flop_per_cycle, write_back_mu, offset, op)
}

/// The tile that a function of whole tiles gives: of the given shape, with
/// the entries `data` where values are simulated.
pub open spec fn result_tile<T>(
    rows: usize,
    cols: usize,
    bytes_per_elem: usize,
    write_back_mu: bool,
    offset: usize,
    data: Option<Seq<T>>,
) -> TileView<T> {
    TileView { shape: seq![rows, cols], bytes_per_elem, read_from_mu: write_back_mu, underlying: data, offset }
}

/// Makes the tile that a function of whole tiles gives.
pub fn make_result_tile<T>(
    rows: usize,
    cols: usize,
    bytes_per_elem: usize,
    write_back_mu: bool,
    offset: usize,
    data: Option<Vec<T>>,
) -> (t: Tile<T>)
    ensures
        t@ == result_tile(
            rows,
            cols,
            bytes_per_elem,
            write_back_mu,
            offset,
            match data {
                Some(d) => Some(d@),
                None => None,
            },
        ),
{
    let mut shape: Vec<usize> = Vec::with_capacity(2);
    shape.push(rows);
    shape.push(cols);
    assert(shape@ =~= seq![rows, cols]);
    Tile { shape, bytes_per_elem, read_from_mu: write_back_mu, underlying: data, offset }
}

/// The shapes of a matrix product: `[M, K]` times `[K, N]`, or times
/// `[N, K]` where the weight is stored transposed.
pub open spec fn matmul_shapes(s1: Seq<usize>, s2: Seq<usize>, weight_transposed: bool) -> bool {
    &&& s1.len() == 2
    &&& s2.len() == 2
    &&& if weight_transposed {
        s1[1] == s2[1]
    } else {
        s1[1] == s2[0]
    }
}

/// The number of columns of a matrix product.
pub open spec fn matmul_n(s2: Seq<usize>, weight_transposed: bool) -> usize {
    if weight_transposed {
        s2[0]
    } else {
        s2[1]
    }
}

/// The matrix product of two tiles: two operations per entry of `M` times
/// `K` times `N`. `product` holds the entries of the product, row by row,
/// where values are simulated.
pub fn matmul<T>(
    in1: &Tile<T>,
    in2: &Tile<T>,
    flop_per_cycle: u64,
    write_back_mu: bool,
    weight_transposed: bool,
    product: Option<Vec<T>>,
) -> (r: (u64, Tile<T>))
    requires
        matmul_shapes(in1@.shape, in2@.shape, weight_transposed),
        in1.bytes_per_elem == in2.bytes_per_elem,
        flop_per_cycle != 0,
        2 * in1.shape[0] * in1.shape[1] * matmul_n(in2@.shape, weight_transposed) <= usize::MAX,
        2 * in1.shape[0] <= usize::MAX,
        2 * in1.shape[0] * in1.shape[1] <= usize::MAX,
        product is Some <==> (in1.underlying is Some && in2.underlying is Some),
    ensures
        r.0 == ceil_div(
            2 * in1.shape[0] * in1.shape[1] * matmul_n(in2@.shape, weight_transposed),
            flop_per_cycle as int,
        ),
        r.1@ == result_tile(
            in1.shape[0],
            matmul_n(in2@.shape, weight_transposed),
            in1.bytes_per_elem,
            write_back_mu,
            in1.offset,
            match product {
                Some(d) => Some(d@),
                None => None,
            },
        ),
{
    let m = in1.shape[0];
    let k = in1.shape[1];
    let n = if !weight_transposed {
        in2.shape[1]
    } else {
        in2.shape[0]
    };
    let flops: usize = 2 * m * k * n;
    (div_ceil(flops as u64, flop_per_cycle), make_result_tile(m, n, in1.bytes_per_elem, write_back_mu, in1.offset, product))
}

/// Whether `out` holds what `op` makes of every entry of `d`.
pub open spec fn mapped<T, F: Fn(T) -> T>(op: F, d: Seq<T>, out: Seq<T>) -> bool {
    out.len() == d.len() && forall|i: int| 0 <= i < d.len() ==> op.ensures((d[i],), #[trigger] out[i])
}

/// Applies `op` to every entry of a tile, which counts as `flops_per_elem`
/// operations per entry.
pub fn unary<T: Copy, F: Fn(T) -> T>(in_data: &Tile<T>, flop_per_cycle: u64, write_back_mu: bool, flops_per_elem: usize, op: F) -> (r:
    (u64, Tile<T>))
    requires
        in_data.shape.len() == 2,
        flop_per_cycle != 0,
        in_data.shape[0] * in_data.shape[1] <= usize::MAX,
        in_data.shape[0] * in_data.shape[1] * flops_per_elem <= usize::MAX,
        forall|a: T| #[trigger] op.requires((a,)),
    ensures
        r.0 == ceil_div(in_data.shape[0] * in_data.shape[1] * flops_per_elem, flop_per_cycle as int),
        r.1@.shape == seq![in_data.shape[0], in_data.shape[1]],
        r.1@.bytes_per_elem == in_data.bytes_per_elem,
        r.1@.read_from_mu == write_back_mu,
        r.1@.offset == in_data.offset,
        match in_data@.underlying {
            Some(d) => r.1@.underlying is Some && mapped(op, d, r.1@.underlying.unwrap()),
            None => r.1@.underlying is None,
        },
{
    let shape_0 = in_data.shape[0];
    let shape_1 = in_data.shape[1];
    let flops: usize = shape_0 * shape_1 * flops_per_elem;
    let data: Option<Vec<T>> = match &in_data.underlying {
        Some(d) => {
            let mut out: Vec<T> = Vec::with_capacity(d.len());
            let mut i: usize = 0;
            while i < d.len()
                invariant
                    i <= d.len(),
                    out.len() == i,
                    forall|a: T| #[trigger] op.requires((a,)),
                    forall|k: int| 0 <= k < i ==> op.ensures((d[k],), #[trigger] out[k]),
                decreases d.len() - i,
            {
                let v = op(d[i]);
                out.push(v);
                i += 1;
            }
            Some(out)
        },
        None => None,
    };
    (
        div_ceil(flops as u64, flop_per_cycle),
        make_result_tile(shape_0, shape_1, in_data.bytes_per_elem, write_back_mu, in_data.offset, data),
    )
}

/// `x / (1 + e^-x)` of every entry, counted as eight operations per entry;
/// `op` computes it for one entry.
pub fn silu<T: Copy, F: Fn(T) -> T>(in_data: &Tile<T>, flop_per_cycle: u64, write_back_mu: bool, op: F) -> (r: (u64, Tile<T>))
    requires
        in_data.shape.len() == 2,
        flop_per_cycle != 0,
        in_data.shape[0] * in_data.shape[1] <= usize::MAX,
        in_data.shape[0] * in_data.shape[1] * 8 <= usize::MAX,
        forall|a: T| #[trigger] op.requires((a,)),
    ensures
        r.0 == ceil_div(in_data.shape[0] * in_data.shape[1] * 8, flop_per_cycle as int),
        r.1@.shape == seq![in_data.shape[0], in_data.shape[1]],
        r.1@.bytes_per_elem == in_data.bytes_per_elem,
        r.1@.read_from_mu == write_back_mu,
        r.1@.offset == in_data.offset,
        match in_data@.underlying {
            Some(d) => r.1@.underlying is Some && mapped(op, d, r.1@.underlying.unwrap()),
            None => r.1@.underlying is None,
        },
{
    unary(in_data, flop_per_cycle, write_back_mu, 8, op)
}

/// `e^x` of every entry, counted as four operations per entry; `op`
/// computes it for one entry.
pub fn exp<T: Copy, F: Fn(T) -> T>(in_data: &Tile<T>, flop_per_cycle: u64, write_back_mu: bool, op: F) -> (r: (u64, Tile<T>))
    requires
        in_data.shape.len() == 2,
        flop_per_cycle != 0,
        in_data.shape[0] * in_data.shape[1] <= usize::MAX,
        in_data.shape[0] * in_data.shape[1] * 4 <= usize::MAX,
        forall|a: T| #[trigger] op.requires((a,)),
    ensures
        r.0 == ceil_div(in_data.shape[0] * in_data.shape[1] * 4, flop_per_cycle as int),
        r.1@.shape == seq![in_data.shape[0], in_data.shape[1]],
        r.1@.bytes_per_elem == in_data.bytes_per_elem,
        r.1@.read_from_mu == write_back_mu,
        r.1@.offset == in_data.offset,
        match in_data@.underlying {
            Some(d) => r.1@.underlying is Some && mapped(op, d, r.1@.underlying.unwrap()),
            None => r.1@.underlying is None,
        },
{
    unary(in_data, flop_per_cycle, write_back_mu, 4, op)
}

/// The sum of every row of a tile, one operation per entry. `sums` holds
/// the sums, one per row, where values are simulated.
pub fn row_wise_sum<T>(in_data: &Tile<T>, flop_per_cycle: u64, write_back_mu: bool, sums: Option<Vec<T>>) -> (r: (
    u64,
    Tile<T>,
))
    requires
        in_data.shape.len() == 2,
        flop_per_cycle != 0,
        in_data.shape[0] * in_data.shape[1] <= usize::MAX,
        sums is Some <==> in_data.underlying is Some,
    ensures
        r.0 == ceil_div(in_data.shape[0] * in_data.shape[1], flop_per_cycle as int),
        r.1@ == result_tile(
            in_data.shape[0],
            1,
            in_data.bytes_per_elem,
            write_back_mu,
            in_data.offset,
            match sums {
                Some(d) => Some(d@),
                None => None,
            },
        ),
{
    let shape_0 = in_data.shape[0];
    let shape_1 = in_data.shape[1];
    let flops: usize = shape_0 * shape_1;
    (
        div_ceil(flops as u64, flop_per_cycle),
        make_result_tile(shape_0, 1, in_data.bytes_per_elem, write_back_mu, in_data.offset, sums),
    )
}

/// The same tile with the number of rows that are data set to the number
/// that the tile `offset` carries; one cycle.
pub fn set_offset<T: Copy>(in_data: &Tile<T>, offset: &Tile<u64>, write_back_mu: bool) -> (r: Option<(u64, Tile<T>)>)
    requires
        in_data.shape.len() == 2,
    ensures
        r.is_some() <==> (offset@.underlying is Some && offset@.underlying.unwrap().len() > 0
            && offset@.underlying.unwrap()[0] <= usize::MAX),
        r matches Some((c, t)) ==> c == 1 && t@ == result_tile(
            in_data.shape[0],
            in_data.shape[1],
            in_data.bytes_per_elem,
            write_back_mu,
            offset@.underlying.unwrap()[0] as usize,
            in_data@.underlying,
        ),
{
    let offset_val = match read_number_tile(offset) {
        Some(v) => v,
        None => {
            return None;
        },
    };
    if offset_val > usize::MAX as u64 {
        return None;
    }
    let data = match &in_data.underlying {
        Some(d) => Some(copy_vec(d)),
        None => None,
    };
    Some(
        (
            1,
            make_result_tile(
                in_data.shape[0],
                in_data.shape[1],
                in_data.bytes_per_elem,
                write_back_mu,
                offset_val as usize,
                data,
            ),
        ),
    )
}

/// The entries of `d` with the `n` entries from position `at` on replaced by
/// those of `patch`.
pub open spec fn patched<T>(d: Seq<T>, at: int, patch: Seq<T>) -> Seq<T> {
    Seq::new(
        d.len(),
        |k: int|
            if at <= k < at + patch.len() {
                patch[k - at]
            } else {
                d[k]
            },
    )
}

/// The tile with the rows of `data_to_append` written behind its rows that
/// are data; one cycle.
pub fn row_wise_append<T: Copy>(in_data: &Tile<T>, data_to_append: &Tile<T>, write_back_mu: bool) -> (r: (u64, Tile<T>))
    requires
        in_data@.wf(),
        data_to_append@.wf(),
        in_data.shape[1] == data_to_append.shape[1],
        in_data.offset + data_to_append.shape[0] <= in_data.shape[0],
    ensures
        r.0 == 1,
        r.1@ == result_tile(
            in_data.shape[0],
            in_data.shape[1],
            in_data.bytes_per_elem,
            write_back_mu,
            (in_data.offset + data_to_append.shape[0]) as usize,
            match (in_data@.underlying, data_to_append@.underlying) {
                (Some(d), Some(p)) => Some(patched(d, in_data.offset * in_data.shape[1], p)),
                _ => None,
            },
        ),
{
    let shape_0 = in_data.shape[0];
    let shape_1 = in_data.shape[1];
    let offset = in_data.offset;
    let new_offset = offset + data_to_append.shape[0];
    let data: Option<Vec<T>> = match (&in_data.underlying, &data_to_append.underlying) {
        (Some(d), Some(p)) => {
            proof {
                assert(shape_0 * shape_1 == d.len());
                assert(data_to_append.shape[0] * shape_1 == p.len());
                assert(offset * shape_1 + data_to_append.shape[0] * shape_1 <= shape_0 * shape_1) by (nonlinear_arith)
                    requires
                        offset + data_to_append.shape[0] <= shape_0,
                        shape_1 >= 0,
                ;
                assert(offset * shape_1 >= 0) by (nonlinear_arith)
                    requires
                        offset >= 0,
                        shape_1 >= 0,
                ;
            }
            let at: usize = offset * shape_1;
            let mut out: Vec<T> = Vec::with_capacity(d.len());
            let mut k: usize = 0;
            while k < d.len()
                invariant
                    k <= d.len(),
                    at + p.len() <= d.len(),
                    out.len() == k,
                    forall|m: int| 0 <= m < k ==> out[m] == patched(d@, at as int, p@)[m],
                decreases d.len() - k,
            {
                if at <= k && k < at + p.len() {
                    out.push(p[k - at]);
                } else {
                    out.push(d[k]);
                }
                k += 1;
            }
            assert(out@ =~= patched(d@, at as int, p@));
            Some(out)
        },
        _ => None,
    };
    (1, make_result_tile(shape_0, shape_1, in_data.bytes_per_elem, write_back_mu, new_offset, data))
}

/// The address at which the next entry of request `idx` is cached: the
/// request number times the distance between requests, plus the length
/// cached so far; one cycle.
pub fn cache_write_addr_gen(idx: &Tile<u64>, len: &Tile<u64>, offset_per_idx: u64, comp_bw: u64, write_back_mu: bool) -> (r:
    Option<(u64, Tile<u64>)>)
    ensures
        r.is_some() <==> (idx@.underlying is Some && idx@.underlying.unwrap().len() > 0 && len@.underlying is Some
            && len@.underlying.unwrap().len() > 0 && idx@.underlying.unwrap()[0] * offset_per_idx
            + len@.underlying.unwrap()[0] <= u64::MAX),
        r matches Some((c, t)) ==> c == 1 && t@ == number_tile(
            (idx@.underlying.unwrap()[0] * offset_per_idx + len@.underlying.unwrap()[0]) as u64,
            write_back_mu,
        ),
{
    let idx_val = match read_number_tile(idx) {
        Some(v) => v,
        None => {
            return None;
        },
    };
    let len_val = match read_number_tile(len) {
        Some(v) => v,
        None => {
            return None;
        },
    };
    let base = match idx_val.checked_mul(offset_per_idx) {
        Some(v) => v,
        None => {
            proof {
                assert(idx_val * offset_per_idx + len_val > u64::MAX);
            }
            return None;
        },
    };
    let addr = match base.checked_add(len_val) {
        Some(v) => v,
        None => {
            return None;
        },
    };
    Some((1, make_number_tile(addr, write_back_mu)))
}

} // verus!
