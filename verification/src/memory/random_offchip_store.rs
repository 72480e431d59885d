use vstd::prelude::*;

use super::{addr_ints, addrs_fit, checked_tile_addresses, tile_addrs, TileLayout};
use crate::primitives::elem::StopType;

verus! {

/// Stores tiles to off-chip memory at the tile numbers that a stream of
/// addresses gives, and acknowledges every tile.
#[derive(Debug, Clone)]
pub struct RandomOffChipStore {
    pub layout: TileLayout,
    pub par_dispatch: usize,
    /// Whether the acknowledgements take their stop markers from the
    /// address stream; else from the data stream.
    pub ack_based_on_waddr: bool,
}

impl RandomOffChipStore {
    /// The store for the given tensor. `None` where nothing is dispatched
    /// per cycle or where the layout is not well formed.
    pub fn new(
        tensor_shape_tiled: Vec<usize>,
        tile_row: usize,
        tile_col: usize,
        n_byte: usize,
        base_addr_byte: u64,
        addr_offset: u64,
        par_dispatch: usize,
        ack_based_on_waddr: bool,
    ) -> (r: Option<Self>)
        ensures
            r matches Some(l) ==> {
                &&& l.layout.wf()
                &&& l.par_dispatch == par_dispatch
                &&& par_dispatch > 0
                &&& l.ack_based_on_waddr == ack_based_on_waddr
                &&& l.layout.tensor_shape_tiled@ == tensor_shape_tiled@
                &&& l.layout.tile_row == tile_row
                &&& l.layout.tile_col == tile_col
                &&& l.layout.n_byte == n_byte
                &&& l.layout.base_addr_byte == base_addr_byte
                &&& l.layout.addr_offset == addr_offset
            },
            r is None <==> !((TileLayout {
                tensor_shape_tiled,
                tile_row,
                tile_col,
                n_byte,
                base_addr_byte,
                addr_offset,
            }).wf() && par_dispatch > 0),
    {
        let layout = TileLayout { tensor_shape_tiled, tile_row, tile_col, n_byte, base_addr_byte, addr_offset };
        if layout.check() && par_dispatch > 0 {
            Some(RandomOffChipStore { layout, par_dispatch, ack_based_on_waddr })
        } else {
            None
        }
    }

    /// The addresses of the writes that store, at tile number `waddr`, a
    /// tile of `size_in_bytes` bytes with entries of `bytes_per_elem`
    /// bytes: tiles of that size are counted from the base address on, and
    /// the rows of the tile are as long and as far apart as entries of that
    /// width make them.
    pub open spec fn write_addrs(&self, waddr: int, bytes_per_elem: int, size_in_bytes: int) -> Seq<int> {
        tile_addrs(
            self.layout.base_addr_byte + waddr * size_in_bytes,
            0,
            self.layout.tile_row as int,
            self.layout.last_dim() * self.layout.tile_col * bytes_per_elem,
            self.layout.tile_col * bytes_per_elem,
            self.layout.addr_offset as int,
        )
    }

    /// Whether such a tile can be written: the tensor has an innermost
    /// axis, requests move bytes, the bytes of a row and the distance
    /// between rows fit the machine word, and so does every address.
    pub open spec fn can_write(&self, waddr: int, bytes_per_elem: int, size_in_bytes: int) -> bool {
        &&& self.layout.tensor_shape_tiled@.len() > 0
        &&& self.layout.addr_offset > 0
        &&& self.layout.tile_col * bytes_per_elem <= usize::MAX
        &&& self.layout.last_dim() * self.layout.tile_col <= usize::MAX
        &&& self.layout.last_dim() * self.layout.tile_col * bytes_per_elem <= usize::MAX
        &&& addrs_fit(self.write_addrs(waddr, bytes_per_elem, size_in_bytes))
    }

    /// The addresses of the writes that store a tile at tile number
    /// `waddr`, whether the tensor has that many tiles or not. The bytes
    /// per entry and the size are those of the tile that is stored.
    pub fn send_write_request(&self, waddr: u64, bytes_per_elem: usize, size_in_bytes: usize) -> (r: Option<
        Vec<u64>,
    >)
        ensures
            r.is_some() == self.can_write(waddr as int, bytes_per_elem as int, size_in_bytes as int),
            r matches Some(addrs) ==> addr_ints(addrs@) == self.write_addrs(
                waddr as int,
                bytes_per_elem as int,
                size_in_bytes as int,
            ),
    {
        if self.layout.tensor_shape_tiled.len() == 0 || self.layout.addr_offset == 0 {
            return None;
        }
        let last = self.layout.tensor_shape_tiled[self.layout.tensor_shape_tiled.len() - 1];
        let row_bytes = self.layout.tile_col.checked_mul(bytes_per_elem)?;
        let lc = last.checked_mul(self.layout.tile_col)?;
        let row_offset = lc.checked_mul(bytes_per_elem)?;
        checked_tile_addresses(
            self.layout.base_addr_byte,
            waddr,
            size_in_bytes,
            self.layout.tile_row,
            row_bytes,
            row_offset,
            self.layout.addr_offset,
        )
    }

    /// The row and the column of the tensor at which the tile of number
    /// `waddr` begins.
    pub fn update_underlying(&self, waddr: u64) -> (origin: (usize, usize))
        requires
            self.layout.wf(),
            self.layout.last_dim() > 0,
            waddr < self.layout.tiles(),
            (waddr / (self.layout.last_dim() as u64)) * self.layout.tile_row <= usize::MAX,
        ensures
            origin.0 == (waddr as int / self.layout.last_dim()) * self.layout.tile_row,
            origin.1 == (waddr as int % self.layout.last_dim()) * self.layout.tile_col,
    {
        let n = self.layout.tensor_shape_tiled.len();
        let total_tiles_col = self.layout.tensor_shape_tiled[n - 1];
        let tile_idx = waddr as usize;
        let tile_row_idx = tile_idx / total_tiles_col;
        let tile_col_idx = tile_idx % total_tiles_col;
        proof {
            assert(tile_col_idx * self.layout.tile_col <= total_tiles_col * self.layout.tile_col) by (nonlinear_arith)
                requires
                    tile_col_idx <= total_tiles_col,
                    self.layout.tile_col >= 0,
            ;
        }
        (tile_row_idx * self.layout.tile_row, tile_col_idx * self.layout.tile_col)
    }

    /// The stop marker of the acknowledgement for an address under the
    /// marker `waddr_stop` and a tile under the marker `wdata_stop`.
    pub fn ack_stop(&self, waddr_stop: Option<StopType>, wdata_stop: Option<StopType>) -> (s: Option<StopType>)
        ensures
            s == if self.ack_based_on_waddr {
                waddr_stop
            } else {
                wdata_stop
            },
    {
        if self.ack_based_on_waddr {
            waddr_stop
        } else {
            wdata_stop
        }
    }
}

} // verus!
