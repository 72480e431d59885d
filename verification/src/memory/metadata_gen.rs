use vstd::prelude::*;

use crate::primitives::elem::{Elem, StopType};
use crate::primitives::tile::{lemma_shape_product_positive, shape_product, Tile, TileView};
use crate::utils::calculation::{all_positive, get_stop_level, stop_level_at};

verus! {

/// The tile of one entry that carries the number `v`.
pub open spec fn number_tile(v: u64, read_from_mu: bool) -> TileView<u64> {
    TileView { shape: seq![1usize, 1usize], bytes_per_elem: 8, read_from_mu, underlying: Some(seq![v]), offset: 1 }
}

/// Makes the tile of one entry that carries the number `v`.
pub fn make_number_tile(v: u64, read_from_mu: bool) -> (t: Tile<u64>)
    ensures
        t@ == number_tile(v, read_from_mu),
        t@.wf(),
{
    let mut shape: Vec<usize> = Vec::with_capacity(2);
    shape.push(1);
    shape.push(1);
    let mut data: Vec<u64> = Vec::with_capacity(1);
    data.push(v);
    assert(shape@ =~= seq![1usize, 1usize]);
    assert(data@ =~= seq![v]);
    let t = Tile { shape, bytes_per_elem: 8, read_from_mu, underlying: Some(data), offset: 1 };
    assert(t@.shape[0] == 1 && t@.shape[1] == 1);
    assert(t@.underlying.unwrap().len() == 1);
    t
}

/// The number that a tile of one entry carries.
pub fn read_number_tile(t: &Tile<u64>) -> (v: Option<u64>)
    ensures
        v == match t@.underlying {
            Some(d) => if d.len() > 0 {
                Some(d[0])
            } else {
                None
            },
            None => None,
        },
{
    match &t.underlying {
        Some(d) => {
            if d.len() > 0 {
                Some(d[0])
            } else {
                None
            }
        },
        None => None,
    }
}

/// Sends the entries of an array of numbers as a stream of tiles of one
/// entry each, with the stop levels of the array's shape.
pub struct MetadataGen {
    pub shape: Vec<usize>,
    pub values: Vec<u64>,
}

impl MetadataGen {
    /// The shape accounts for every value.
    pub open spec fn wf(&self) -> bool {
        shape_product(self.shape@) == self.values@.len() && self.shape@.len() <= u32::MAX
    }

    /// The generator for the array of the given shape and values. `None`
    /// where the shape does not account for every value.
    pub fn new(shape: Vec<usize>, values: Vec<u64>) -> (r: Option<Self>)
        ensures
            r.is_some() <==> (MetadataGen { shape, values }).wf(),
            r matches Some(g) ==> g.shape@ == shape@ && g.values@ == values@,
    {
        let n = values.len();
        let fits = match crate::primitives::tile::checked_shape_product(&shape) {
            Some(p) => p == n,
            None => false,
        };
        if !fits || shape.len() > u32::MAX as usize {
            return None;
        }
        Some(MetadataGen { shape, values })
    }

    /// The stream, in row-major order; element `k` is stamped `k` cycles
    /// after the start.
    pub fn get_elem_array(&self) -> (out: Vec<Elem<Tile<u64>>>)
        requires
            self.wf(),
        ensures
            out.len() == self.values.len(),
            forall|i: int|
                0 <= i < out.len() ==> (#[trigger] out[i]).value()@ == number_tile(self.values[i], false)
                    && out[i].canonical() && out[i].level() == stop_level_at(self.shape@, i as nat),
    {
        let mut result: Vec<Elem<Tile<u64>>> = Vec::with_capacity(self.values.len());
        proof {
            if self.values.len() > 0 {
                lemma_shape_product_positive(self.shape@);
            }
        }
        let mut i: usize = 0;
        while i < self.values.len()
            invariant
                i <= self.values.len(),
                self.wf(),
                self.values.len() > 0 ==> all_positive(self.shape@),
                result.len() == i,
                forall|k: int|
                    0 <= k < i ==> (#[trigger] result[k]).value()@ == number_tile(self.values[k], false)
                        && result[k].canonical() && result[k].level() == stop_level_at(self.shape@, k as nat),
            decreases self.values.len() - i,
        {
            let level = get_stop_level(i, self.shape.as_slice());
            let tile = make_number_tile(self.values[i], false);
            let ghost prev = result@;
            result.push(Elem::from_level(tile, level as StopType));
            assert forall|k: int| 0 <= k < i implies result[k] == prev[k] by {}
            i += 1;
        }
        result
    }
}

} // verus!
