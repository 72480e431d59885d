use vstd::prelude::*;

use super::map_fn::{
    broadcastable,
    elementwise,
    elementwise_result,
    larger,
    make_result_tile,
    result_tile,
    values_indexable,
};
use crate::memory::metadata_gen::{make_number_tile, number_tile};
use crate::primitives::tile::{Tile, TileView};

verus! {

/// The product of a tile and the accumulator entry by entry; `op`
/// multiplies two entries. No row of the result is padding.
pub fn mul<T: Copy, F: Fn(T, T) -> T>(in1: &Tile<T>, in2: &Tile<T>, flop_per_cycle: u64, write_back_mu: bool, op: F) -> (r:
    (u64, Tile<T>))
    requires
        in1@.wf(),
        in2@.wf(),
        broadcastable(in1@.shape, in2@.shape),
        values_indexable(in1@, in2@),
        flop_per_cycle != 0,
        larger(in1.shape[0], in2.shape[0]) * larger(in1.shape[1], in2.shape[1]) <= usize::MAX,
        forall|a: T, b: T| #[trigger] op.requires((a, b)),
    ensures
        elementwise_result(
            op,
            in1@,
            in2@,
            flop_per_cycle,
            write_back_mu,
            larger(in1.shape[0], in2.shape[0]),
            (r.0, r.1@),
        ),
        r.1@.wf(),
{
    let rows = if in1.shape[0] >= in2.shape[0] {
        in1.shape[0]
    } else {
        in2.shape[0]
    };
    elementwise(in1, in2, flop_per_cycle, write_back_mu, rows, op)
}

/// The sum of a tile and the accumulator entry by entry; `op` adds two
/// entries. No row of the result is padding.
pub fn add<T: Copy, F: Fn(T, T) -> T>(in1: &Tile<T>, in2: &Tile<T>, flop_per_cycle: u64, write_back_mu: bool, op: F) -> (r:
    (u64, Tile<T>))
    requires
        in1@.wf(),
        in2@.wf(),
        broadcastable(in1@.shape, in2@.shape),
        values_indexable(in1@, in2@),
        flop_per_cycle != 0,
        larger(in1.shape[0], in2.shape[0]) * larger(in1.shape[1], in2.shape[1]) <= usize::MAX,
        forall|a: T, b: T| #[trigger] op.requires((a, b)),
    ensures
        elementwise_result(
            op,
            in1@,
            in2@,
            flop_per_cycle,
            write_back_mu,
            larger(in1.shape[0], in2.shape[0]),
            (r.0, r.1@),
        ),
        r.1@.wf(),
{
    let rows = if in1.shape[0] >= in2.shape[0] {
        in1.shape[0]
    } else {
        in2.shape[0]
    };
    elementwise(in1, in2, flop_per_cycle, write_back_mu, rows, op)
}

/// The entries of two tiles of `rows` rows side by side: the columns of
/// `left`, then those of `right`.
pub open spec fn side_by_side<T>(rows: int, lc: int, left: Seq<T>, rc: int, right: Seq<T>) -> Seq<T> {
    Seq::new(
        (rows * (lc + rc)) as nat,
        |k: int|
            {
                let i = k / (lc + rc);
                let j = k % (lc + rc);
                if j < lc {
                    left[i * lc + j]
                } else {
                    right[i * rc + (j - lc)]
                }
            },
    )
}

/// The accumulator with the columns of the tile put to its right; no
/// cycles. Both hold values and have the same number of rows.
pub fn retile_col<T: Copy>(in_data: &Tile<T>, accumulator: &Tile<T>, flop_per_cycle: u64, write_back_mu: bool) -> (r: (
    u64,
    Tile<T>,
))
    requires
        in_data@.wf(),
        accumulator@.wf(),
        in_data.underlying is Some,
        accumulator.underlying is Some,
        in_data.shape[0] == accumulator.shape[0],
        accumulator.shape[1] + in_data.shape[1] <= usize::MAX,
        accumulator.shape[0] * (accumulator.shape[1] + in_data.shape[1]) <= usize::MAX,
    ensures
        r.0 == 0,
        r.1@ == result_tile(
            in_data.shape[0],
            (accumulator.shape[1] + in_data.shape[1]) as usize,
            in_data.bytes_per_elem,
            in_data.read_from_mu,
            in_data.shape[0],
            Some(
                side_by_side(
                    in_data.shape[0] as int,
                    accumulator.shape[1] as int,
                    accumulator@.underlying.unwrap(),
                    in_data.shape[1] as int,
                    in_data@.underlying.unwrap(),
                ),
            ),
        ),
{
    let rows = in_data.shape[0];
    let lc = accumulator.shape[1];
    let rc = in_data.shape[1];
    let cols: usize = lc + rc;
    let left = match &accumulator.underlying {
        Some(d) => d,
        None => vstd::pervasive::unreached(),
    };
    let right = match &in_data.underlying {
        Some(d) => d,
        None => vstd::pervasive::unreached(),
    };
    let ghost want = side_by_side(rows as int, lc as int, left@, rc as int, right@);
    let mut out: Vec<T> = Vec::new();
    let mut i: usize = 0;
    assert(0 * cols == 0) by (nonlinear_arith);
    while i < rows
        invariant
            i <= rows,
            cols == lc + rc,
            rows * cols <= usize::MAX,
            left.len() == rows * lc,
            right.len() == rows * rc,
            want == side_by_side(rows as int, lc as int, left@, rc as int, right@),
            out.len() == i * cols,
            forall|k: int| 0 <= k < out.len() ==> out[k] == want[k],
        decreases rows - i,
    {
        let mut j: usize = 0;
        while j < cols
            invariant
                j <= cols,
                i < rows,
                cols == lc + rc,
                rows * cols <= usize::MAX,
                left.len() == rows * lc,
                right.len() == rows * rc,
                want == side_by_side(rows as int, lc as int, left@, rc as int, right@),
                out.len() == i * cols + j,
                forall|k: int| 0 <= k < out.len() ==> out[k] == want[k],
            decreases cols - j,
        {
            proof {
                let k = i * cols + j;
                assert(k < rows * cols) by (nonlinear_arith)
                    requires
                        k == i * cols + j,
                        0 <= i < rows,
                        0 <= j < cols,
                ;
                vstd::arithmetic::div_mod::lemma_fundamental_div_mod_converse(
                    k as int,
                    cols as int,
                    i as int,
                    j as int,
                );
                assert(i * lc + j < rows * lc || j >= lc) by (nonlinear_arith)
                    requires
                        0 <= i < rows,
                        0 <= j,
                        lc >= 0,
                ;
                assert(i * rc + (j - lc) < rows * rc || j < lc) by (nonlinear_arith)
                    requires
                        0 <= i < rows,
                        j - lc < rc,
                        rc >= 0,
                ;
                assert(i * rc >= 0 && i * lc >= 0) by (nonlinear_arith)
                    requires
                        i >= 0,
                        rc >= 0,
                        lc >= 0,
                ;
            }
            let v = if j < lc {
                left[i * lc + j]
            } else {
                right[i * rc + (j - lc)]
            };
            out.push(v);
            j += 1;
        }
        assert((i + 1) * cols == i * cols + cols) by (nonlinear_arith);
        i += 1;
    }
    assert(out@ =~= want);
    (0, make_result_tile(rows, cols, in_data.bytes_per_elem, in_data.read_from_mu, rows, Some(out)))
}

/// The rows of a tile that take part in the offset of a stack of tiles: all
/// of them or none.
pub open spec fn whole_or_padding(rows: usize, offset: usize) -> bool {
    rows == offset || offset == 0
}

/// The accumulator with the rows of the tile put below it; no cycles. The
/// rows of the result that are data are those of the two together.
pub fn retile_row<T: Copy>(in_data: &Tile<T>, accumulator: &Tile<T>, flop_per_cycle: u64, write_back_mu: bool) -> (r: (
    u64,
    Tile<T>,
))
    requires
        in_data@.wf(),
        accumulator@.wf(),
        in_data.shape[1] == accumulator.shape[1],
        in_data.underlying is Some ==> accumulator.underlying is Some,
        in_data.underlying is None ==> whole_or_padding(in_data.shape[0], in_data.offset),
        in_data.shape[0] + accumulator.shape[0] <= usize::MAX,
        accumulator.offset + in_data.offset <= usize::MAX,
    ensures
        r.0 == 0,
        r.1@ == result_tile(
            (in_data.shape[0] + accumulator.shape[0]) as usize,
            accumulator.shape[1],
            in_data.bytes_per_elem,
            in_data.read_from_mu,
            (accumulator.offset + in_data.offset) as usize,
            match in_data@.underlying {
                Some(d) => Some(accumulator@.underlying.unwrap() + d),
                None => None,
            },
        ),
{
    let rows: usize = in_data.shape[0] + accumulator.shape[0];
    let data: Option<Vec<T>> = match &in_data.underlying {
        Some(d) => {
            let cur = match &accumulator.underlying {
                Some(c) => c,
                None => vstd::pervasive::unreached(),
            };
            let mut out: Vec<T> = Vec::with_capacity(cur.len());
            let mut k: usize = 0;
            while k < cur.len()
                invariant
                    k <= cur.len(),
                    out@ == cur@.subrange(0, k as int),
                decreases cur.len() - k,
            {
                out.push(cur[k]);
                assert(cur@.subrange(0, k + 1) =~= cur@.subrange(0, k as int).push(cur[k as int]));
                k += 1;
            }
            assert(cur@.subrange(0, cur.len() as int) =~= cur@);
            let mut m: usize = 0;
            while m < d.len()
                invariant
                    m <= d.len(),
                    out@ == cur@ + d@.subrange(0, m as int),
                decreases d.len() - m,
            {
                out.push(d[m]);
                assert(cur@ + d@.subrange(0, m + 1) =~= (cur@ + d@.subrange(0, m as int)).push(d[m as int]));
                m += 1;
            }
            assert(d@.subrange(0, d.len() as int) =~= d@);
            Some(out)
        },
        None => None,
    };
    (
        0,
        make_result_tile(
            rows,
            accumulator.shape[1],
            in_data.bytes_per_elem,
            in_data.read_from_mu,
            accumulator.offset + in_data.offset,
            data,
        ),
    )
}

/// The signal that a request was read in full: a tile that carries the
/// number one where values are simulated, else a blank tile of one entry;
/// one cycle.
pub fn signal_req_all_read<T>(in_data: &Tile<T>, write_back_mu: bool) -> (r: (u64, Tile<u64>))
    ensures
        r.0 == 1,
        r.1@ == if in_data.underlying is Some {
            number_tile(1, write_back_mu)
        } else {
            TileView::<u64> {
                shape: seq![1usize, 1usize],
                bytes_per_elem: 8,
                read_from_mu: write_back_mu,
                underlying: None,
                offset: 1,
            }
        },
{
    match &in_data.underlying {
        Some(_) => (1, make_number_tile(1, write_back_mu)),
        None => (1, make_result_tile(1, 1, 8, write_back_mu, 1, None)),
    }
}

} // verus!
