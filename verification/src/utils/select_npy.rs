use vstd::prelude::*;

use crate::primitives::elem::{Bufferizable, Elem, StopType};
use crate::primitives::select::MultiHotN;
use crate::primitives::tile::{checked_shape_product, lemma_shape_product_positive, lemma_shape_product_push, shape_product};
use crate::utils::calculation::{all_positive, get_stop_level, stop_level_at};

verus! {

/// Why a tensor of selectors cannot be read as a stream.
#[derive(Debug, Clone, Copy, PartialEq, Eq)]
pub enum SelectShapeError {
    /// The tensor has no axis.
    NoAxis,
    /// The selectors have no width.
    ZeroWidth,
    /// The shape does not account for every entry.
    Mismatch,
}

/// The shape of the stream that a tensor of selectors of shape `shape` is
/// read as: the shape without its last axis, which is the width of a
/// selector; a single selector is a stream of one.
pub open spec fn selector_stream_shape(shape: Seq<usize>) -> Seq<usize> {
    if shape.len() > 1 {
        shape.drop_last()
    } else {
        seq![1usize]
    }
}

/// Reads the entries of a tensor of shape `shape_vec`, given row by row, as
/// a stream of selectors: the last axis is the width of a selector, the
/// other axes give the stop levels of the stream.
pub fn multihot_elems(bool_data: &Vec<bool>, shape_vec: &Vec<usize>) -> (r: Result<Vec<Elem<MultiHotN>>, SelectShapeError>)
    requires
        shape_vec.len() <= u32::MAX,
    ensures
        shape_vec.len() == 0 ==> r == Err::<Vec<Elem<MultiHotN>>, SelectShapeError>(SelectShapeError::NoAxis),
        shape_vec.len() > 0 && shape_vec@.last() == 0 ==> r == Err::<Vec<Elem<MultiHotN>>, SelectShapeError>(
            SelectShapeError::ZeroWidth,
        ),
        shape_vec.len() > 0 && shape_vec@.last() > 0 && shape_product(shape_vec@) != bool_data.len() ==> r
            == Err::<Vec<Elem<MultiHotN>>, SelectShapeError>(SelectShapeError::Mismatch),
        shape_vec.len() > 0 && shape_vec@.last() > 0 && shape_product(shape_vec@) == bool_data.len() ==> r is Ok,
        r matches Ok(out) ==> {
            let width = shape_vec@.last() as int;
            &&& out.len() == shape_product(shape_vec@.drop_last())
            &&& out.len() * width == bool_data.len()
            &&& forall|i: int|
                0 <= i < out.len() ==> {
                    &&& (#[trigger] out[i]).value()@ == bool_data@.subrange(i * width, i * width + width)
                    &&& !out[i].value().from_mu() && !out[i].value().spec_read_from_mu()
                    &&& out[i].canonical()
                    &&& out[i].level() == stop_level_at(selector_stream_shape(shape_vec@), i as nat)
                }
        },
{
    if shape_vec.len() == 0 {
        return Err(SelectShapeError::NoAxis);
    }
    if shape_vec[shape_vec.len() - 1] == 0 {
        return Err(SelectShapeError::ZeroWidth);
    }
    let total = bool_data.len();
    let fits = match checked_shape_product(shape_vec) {
        Some(p) => p == total,
        None => false,
    };
    if !fits {
        return Err(SelectShapeError::Mismatch);
    }
    let vector_length = shape_vec[shape_vec.len() - 1];
    let mut elem_shape: Vec<usize> = Vec::with_capacity(shape_vec.len());
    if shape_vec.len() > 1 {
        let mut k: usize = 0;
        while k < shape_vec.len() - 1
            invariant
                k <= shape_vec.len() - 1,
                elem_shape.len() == k,
                forall|m: int| 0 <= m < k ==> elem_shape[m] == shape_vec[m],
            decreases shape_vec.len() - 1 - k,
        {
            elem_shape.push(shape_vec[k]);
            k += 1;
        }
        assert(elem_shape@ =~= shape_vec@.drop_last());
    } else {
        elem_shape.push(1);
        assert(elem_shape@ =~= seq![1usize]);
    }
    assert(elem_shape@ == selector_stream_shape(shape_vec@));
    let ghost outer = shape_vec@.drop_last();
    proof {
        assert(shape_vec@ =~= outer.push(shape_vec@.last()));
        lemma_shape_product_push(outer, shape_vec@.last());
    }
    let mut out: Vec<Elem<MultiHotN>> = Vec::new();
    if total == 0 {
        proof {
            assert(shape_product(outer) == 0) by (nonlinear_arith)
                requires
                    shape_product(outer) * vector_length == 0,
                    vector_length > 0,
            ;
            assert(0 * (vector_length as int) == 0);
        }
        return Ok(out);
    }
    proof {
        lemma_shape_product_positive(shape_vec@);
        assert(vector_length > 0);
        assert(shape_product(outer) > 0) by (nonlinear_arith)
            requires
                shape_product(outer) * vector_length == total,
                total > 0,
                vector_length > 0,
        ;
        if shape_vec.len() > 1 {
            lemma_shape_product_positive(outer);
        }
        assert(all_positive(elem_shape@));
        assert(shape_product(outer) <= total) by (nonlinear_arith)
            requires
                shape_product(outer) * vector_length == total,
                vector_length >= 1,
                shape_product(outer) >= 0,
        ;
    }
    let count: usize = total / vector_length;
    proof {
        let c = shape_product(outer) as int;
        let w = vector_length as int;
        assert(c * w == total);
        vstd::arithmetic::div_mod::lemma_div_multiples_vanish(c, w);
        assert(w * c == c * w) by (nonlinear_arith);
    }
    let mut i: usize = 0;
    while i < count
        invariant
            i <= count,
            vector_length > 0,
            count * vector_length == total,
            total == bool_data.len(),
            all_positive(elem_shape@),
            elem_shape@ == selector_stream_shape(shape_vec@),
            shape_vec.len() > 0,
            elem_shape@.len() <= shape_vec.len(),
            shape_vec.len() <= u32::MAX,
            out.len() == i,
            forall|k: int|
                0 <= k < i ==> {
                    &&& (#[trigger] out[k]).value()@ == bool_data@.subrange(
                        k * vector_length,
                        k * vector_length + vector_length,
                    )
                    &&& !out[k].value().from_mu() && !out[k].value().spec_read_from_mu()
                    &&& out[k].canonical()
                    &&& out[k].level() == stop_level_at(selector_stream_shape(shape_vec@), k as nat)
                },
        decreases count - i,
    {
        proof {
            assert(i * vector_length + vector_length <= count * vector_length) by (nonlinear_arith)
                requires
                    i < count,
                    vector_length > 0,
            ;
            assert(i * vector_length >= 0) by (nonlinear_arith)
                requires
                    i >= 0,
                    vector_length > 0,
            ;
        }
        let start: usize = i * vector_length;
        let mut mask: Vec<bool> = Vec::with_capacity(vector_length);
        let mut k: usize = 0;
        while k < vector_length
            invariant
                k <= vector_length,
                start + vector_length <= bool_data.len(),
                mask.len() == k,
                forall|m: int| 0 <= m < k ==> mask[m] == bool_data[start + m],
            decreases vector_length - k,
        {
            mask.push(bool_data[start + k]);
            k += 1;
        }
        assert(mask@ =~= bool_data@.subrange(start as int, start + vector_length));
        let level = get_stop_level(i, elem_shape.as_slice());
        assert(level <= u32::MAX) by {
            assert(level <= elem_shape@.len());
        }
        let ghost prev = out@;
        let sel = MultiHotN::new(mask, false);
        out.push(Elem::from_level(sel, level as StopType));
        assert forall|m: int| 0 <= m < i implies out[m] == prev[m] by {}
        i += 1;
    }
    Ok(out)
}

} // verus!
