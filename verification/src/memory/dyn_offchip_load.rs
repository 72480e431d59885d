use vstd::prelude::*;

use super::offchip_load::OffChipLoad;
use super::TileLayout;
use crate::primitives::elem::StopType;

verus! {

/// The stop marker to send a tile with when the reference stream gave an
/// element with marker `ref_stop`: the stop that ends the whole tensor is
/// raised by the level of the reference, every other marker stays.
pub open spec fn dyn_stop(rank: nat, stop: Option<StopType>, ref_stop: Option<StopType>) -> Option<StopType> {
    match (stop, ref_stop) {
        (Some(level), Some(r)) => if level == rank {
            Some((r + level) as u32)
        } else {
            Some(level)
        },
        (s, _) => s,
    }
}

/// Fetches the tiles of a tensor once for every element of a reference
/// stream, which makes the fetched tensor the inner part of an outer
/// dynamic loop.
#[derive(Debug, Clone)]
pub struct DynOffChipLoad {
    pub load: OffChipLoad,
}

impl DynOffChipLoad {
    /// The loader for the given tensor and view, as for the static loader.
    pub fn new(
        tensor_shape_tiled: Vec<usize>,
        stride: Vec<usize>,
        out_shape_tiled: Vec<usize>,
        tile_row: usize,
        tile_col: usize,
        n_byte: usize,
        base_addr_byte: u64,
        addr_offset: u64,
        par_dispatch: usize,
    ) -> (r: Option<Self>)
        ensures
            r matches Some(l) ==> {
                &&& l.load.wf()
                &&& l.load.layout.tensor_shape_tiled@ == tensor_shape_tiled@
                &&& l.load.layout.tile_row == tile_row
                &&& l.load.layout.tile_col == tile_col
                &&& l.load.layout.n_byte == n_byte
                &&& l.load.layout.base_addr_byte == base_addr_byte
                &&& l.load.layout.addr_offset == addr_offset
                &&& l.load.stride@ == stride@
                &&& l.load.out_shape_tiled@ == out_shape_tiled@
                &&& l.load.par_dispatch == par_dispatch
            },
            r is None <==> !(OffChipLoad {
                layout: TileLayout { tensor_shape_tiled, tile_row, tile_col, n_byte, base_addr_byte, addr_offset },
                stride,
                out_shape_tiled,
                par_dispatch,
            }).wf(),
    {
        match OffChipLoad::new(
            tensor_shape_tiled,
            stride,
            out_shape_tiled,
            tile_row,
            tile_col,
            n_byte,
            base_addr_byte,
            addr_offset,
            par_dispatch,
        ) {
            Some(load) => Some(DynOffChipLoad { load }),
            None => None,
        }
    }

    /// The entries of one tile.
    pub fn on_chip_req_elems(&self) -> (n: usize)
        requires
            self.load.layout.tile_row * self.load.layout.tile_col <= usize::MAX,
        ensures
            n == self.load.layout.tile_row * self.load.layout.tile_col,
    {
        self.load.on_chip_req_elems()
    }

    /// The stop marker to send a tile with that the static loader would
    /// send with `stop`, the reference element having the marker
    /// `ref_stop`.
    pub fn final_stop(&self, stop: Option<StopType>, ref_stop: Option<StopType>) -> (r: Option<StopType>)
        requires
            self.load.wf(),
            ref_stop matches Some(v) ==> v + self.load.out_shape_tiled@.len() <= u32::MAX,
        ensures
            r == dyn_stop(self.load.out_shape_tiled@.len(), stop, ref_stop),
    {
        match stop {
            None => None,
            Some(level) => {
                match ref_stop {
                    Some(r) => {
                        if level as usize == self.load.out_shape_tiled.len() {
                            Some(r + level)
                        } else {
                            Some(level)
                        }
                    },
                    None => Some(level),
                }
            },
        }
    }
}

} // verus!
