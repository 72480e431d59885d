use vstd::prelude::*;

use super::{addr_ints, TileLayout};
use crate::primitives::elem::Bufferizable;
use crate::primitives::tile::{Tile, TileView};

verus! {

/// Fetches the tiles of a tensor from off-chip memory in the order in which
/// a stream of tile numbers asks for them.
#[derive(Debug, Clone)]
pub struct RandomOffChipLoad {
    pub layout: TileLayout,
    pub par_dispatch: usize,
}

impl RandomOffChipLoad {
    /// The loader for the given tensor. `None` where nothing is dispatched
    /// per cycle or where the layout is not well formed.
    pub fn new(
        tensor_shape_tiled: Vec<usize>,
        tile_row: usize,
        tile_col: usize,
        n_byte: usize,
        base_addr_byte: u64,
        addr_offset: u64,
        par_dispatch: usize,
    ) -> (r: Option<Self>)
        ensures
            r matches Some(l) ==> {
                &&& l.layout.wf()
                &&& l.par_dispatch == par_dispatch
                &&& par_dispatch > 0
                &&& l.layout.tensor_shape_tiled@ == tensor_shape_tiled@
                &&& l.layout.tile_row == tile_row
                &&& l.layout.tile_col == tile_col
                &&& l.layout.n_byte == n_byte
                &&& l.layout.base_addr_byte == base_addr_byte
                &&& l.layout.addr_offset == addr_offset
            },
            r is None <==> !((TileLayout {
                tensor_shape_tiled,
                tile_row,
                tile_col,
                n_byte,
                base_addr_byte,
                addr_offset,
            }).wf() && par_dispatch > 0),
    {
        let layout = TileLayout { tensor_shape_tiled, tile_row, tile_col, n_byte, base_addr_byte, addr_offset };
        if layout.check() && par_dispatch > 0 {
            Some(RandomOffChipLoad { layout, par_dispatch })
        } else {
            None
        }
    }

    /// The addresses of the requests that fetch tile number `tile_idx`,
    /// whether the tensor has that many tiles or not; `None` where an
    /// address is more than a machine word holds.
    pub fn generate_tile_addresses(&self, tile_idx: u64) -> (r: Option<Vec<u64>>)
        ensures
            r.is_some() == self.layout.addressable(tile_idx as int),
            r matches Some(addrs) ==> addr_ints(addrs@) == self.layout.addrs_of(tile_idx as int),
    {
        self.layout.tile_addresses_at(tile_idx)
    }

    /// The tile to send for tile number `tile_idx`: the tile of the tensor
    /// where values are simulated and the number is one of its tiles, else a
    /// blank tile to be read from memory.
    pub fn create_tile_data<T: Copy>(&self, tile_idx: u64, tiles: &Option<Vec<Tile<T>>>) -> (t: Tile<T>)
        ensures
            t@ == match tiles {
                Some(v) => if tile_idx < v.len() {
                    v[tile_idx as int]@
                } else {
                    self.blank::<T>()
                },
                None => self.blank::<T>(),
            },
    {
        match tiles {
            Some(v) => {
                if tile_idx < v.len() as u64 {
                    let src = &v[tile_idx as usize];
                    return src.clone_with_updated_read_from_mu(src.read_from_mu);
                }
            },
            None => {},
        }
        let mut shape: Vec<usize> = Vec::with_capacity(2);
        shape.push(self.layout.tile_row);
        shape.push(self.layout.tile_col);
        assert(shape@ =~= seq![self.layout.tile_row, self.layout.tile_col]);
        Tile::new_blank(shape, self.layout.n_byte, true)
    }

    /// The blank tile of the loader's tile shape.
    pub open spec fn blank<T>(&self) -> TileView<T> {
        TileView {
            shape: seq![self.layout.tile_row, self.layout.tile_col],
            bytes_per_elem: self.layout.n_byte,
            read_from_mu: true,
            underlying: None,
            offset: self.layout.tile_row,
        }
    }
}

} // verus!
