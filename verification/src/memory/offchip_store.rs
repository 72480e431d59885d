use vstd::prelude::*;

use super::{addr_ints, TileLayout};
use crate::operator::ProtocolError;
use crate::primitives::tile::{shape_product, Tile};

verus! {

/// What a store has seen: how many tiles, and the bytes per entry of the
/// first of them.
pub struct StoreState {
    pub tile_idx: nat,
    pub n_bytes: Option<usize>,
}

/// Stores the tiles of a stream to off-chip memory, one after the other from
/// the base address on.
#[derive(Debug, Clone)]
pub struct OffChipStore {
    pub tensor_shape_tiled: Vec<usize>,
    pub tile_row: usize,
    pub tile_col: usize,
    pub base_addr_byte: u64,
    pub addr_offset: u64,
    pub par_dispatch: usize,
    /// How many tiles were stored.
    pub tile_idx: usize,
    /// The bytes per entry of the first tile.
    pub n_bytes: Option<usize>,
}

impl OffChipStore {
    /// What the store has seen.
    pub open spec fn state(&self) -> StoreState {
        StoreState { tile_idx: self.tile_idx as nat, n_bytes: self.n_bytes }
    }

    /// The layout of the stored tensor for entries of `n_byte` bytes.
    pub open spec fn layout(&self, n_byte: usize) -> TileLayout {
        TileLayout {
            tensor_shape_tiled: self.tensor_shape_tiled,
            tile_row: self.tile_row,
            tile_col: self.tile_col,
            n_byte,
            base_addr_byte: self.base_addr_byte,
            addr_offset: self.addr_offset,
        }
    }

    pub fn new(
        tensor_shape_tiled: Vec<usize>,
        tile_row: usize,
        tile_col: usize,
        base_addr_byte: u64,
        addr_offset: u64,
        par_dispatch: usize,
    ) -> (s: Self)
        ensures
            s.tensor_shape_tiled@ == tensor_shape_tiled@,
            s.tile_row == tile_row,
            s.tile_col == tile_col,
            s.base_addr_byte == base_addr_byte,
            s.addr_offset == addr_offset,
            s.par_dispatch == par_dispatch,
            s.state() == (StoreState { tile_idx: 0, n_bytes: None }),
    {
        OffChipStore {
            tensor_shape_tiled,
            tile_row,
            tile_col,
            base_addr_byte,
            addr_offset,
            par_dispatch,
            tile_idx: 0,
            n_bytes: None,
        }
    }

    /// The entries of one tile.
    pub fn on_chip_req_elems(&self) -> (n: usize)
        requires
            self.tile_row * self.tile_col <= usize::MAX,
        ensures
            n == self.tile_row * self.tile_col,
    {
        self.tile_row * self.tile_col
    }

    /// The entries of all tiles of the tensor.
    pub fn stored_elems(&self) -> (n: usize)
        requires
            shape_product(self.tensor_shape_tiled@) <= usize::MAX,
            shape_product(self.tensor_shape_tiled@) * self.tile_row <= usize::MAX,
            shape_product(self.tensor_shape_tiled@) * self.tile_row * self.tile_col <= usize::MAX,
        ensures
            n == shape_product(self.tensor_shape_tiled@) * self.tile_row * self.tile_col,
    {
        let total_tiles = crate::primitives::tile::checked_shape_product(&self.tensor_shape_tiled).unwrap();
        total_tiles * self.tile_row * self.tile_col
    }

    /// What a tile of the given shape and bytes per entry meets at the
    /// store: the tile has the store's shape, every tile has the bytes per
    /// entry of the first, and the addresses of the tile are ones that the
    /// machine can count and hold. The store takes as many tiles as come,
    /// however many the tensor was said to have.
    pub open spec fn accepts(&self, shape: Seq<usize>, bytes_per_elem: usize) -> Option<ProtocolError> {
        if shape.len() != 2 || shape[0] != self.tile_row || shape[1] != self.tile_col {
            Some(ProtocolError::ShapeMismatch)
        } else if self.state().n_bytes is Some && self.state().n_bytes != Some(bytes_per_elem) {
            Some(ProtocolError::ShapeMismatch)
        } else if self.state().tile_idx >= usize::MAX || !self.layout(bytes_per_elem).addressable(
            self.state().tile_idx as int,
        ) {
            Some(ProtocolError::BadConfig)
        } else {
            None
        }
    }

    /// The layout of the stored tensor for entries of `n_byte` bytes.
    fn layout_for(&self, n_byte: usize) -> (l: TileLayout)
        ensures
            l.tensor_shape_tiled@ == self.tensor_shape_tiled@,
            l.tile_row == self.tile_row,
            l.tile_col == self.tile_col,
            l.n_byte == n_byte,
            l.base_addr_byte == self.base_addr_byte,
            l.addr_offset == self.addr_offset,
            l.sizes_fit() == self.layout(n_byte).sizes_fit(),
            forall|j: int| l.addrs_of(j) == self.layout(n_byte).addrs_of(j),
    {
        let l = TileLayout {
            tensor_shape_tiled: crate::primitives::tile::copy_vec(&self.tensor_shape_tiled),
            tile_row: self.tile_row,
            tile_col: self.tile_col,
            n_byte,
            base_addr_byte: self.base_addr_byte,
            addr_offset: self.addr_offset,
        };
        proof {
            let m = self.layout(n_byte);
            assert(l.tensor_shape_tiled@ == m.tensor_shape_tiled@);
            assert(l.sizes_fit() == m.sizes_fit());
            assert forall|j: int| l.addrs_of(j) == m.addrs_of(j) by {}
        }
        l
    }

    /// What the next tile of the stream, of the given shape and bytes per
    /// entry, meets at the store: nothing, where the store takes it, or
    /// what is wrong with it.
    pub fn check_tile(&self, shape: &Vec<usize>, bytes_per_elem: usize) -> (e: Option<ProtocolError>)
        ensures
            e == self.accepts(shape@, bytes_per_elem),
    {
        if shape.len() != 2 || shape[0] != self.tile_row || shape[1] != self.tile_col {
            return Some(ProtocolError::ShapeMismatch);
        }
        match self.n_bytes {
            Some(b) => {
                if b != bytes_per_elem {
                    return Some(ProtocolError::ShapeMismatch);
                }
            },
            None => {},
        }
        if self.tile_idx == usize::MAX {
            return Some(ProtocolError::BadConfig);
        }
        let layout = self.layout_for(bytes_per_elem);
        match layout.tile_addresses_at(self.tile_idx as u64) {
            Some(_) => None,
            None => Some(ProtocolError::BadConfig),
        }
    }

    /// Takes note of the next tile of the stream, of the given shape and
    /// bytes per entry, and returns the addresses of the writes that store
    /// it. The tile is one that the store takes: `check_tile` finds nothing
    /// wrong with it.
    pub fn on_tile(&mut self, shape: &Vec<usize>, bytes_per_elem: usize) -> (r: Result<Vec<u64>, ProtocolError>)
        requires
            old(self).accepts(shape@, bytes_per_elem) is None,
        ensures
            final(self).tensor_shape_tiled@ == old(self).tensor_shape_tiled@,
            final(self).tile_row == old(self).tile_row,
            final(self).tile_col == old(self).tile_col,
            final(self).base_addr_byte == old(self).base_addr_byte,
            final(self).addr_offset == old(self).addr_offset,
            final(self).par_dispatch == old(self).par_dispatch,
            match r {
                Ok(addrs) => {
                    &&& old(self).accepts(shape@, bytes_per_elem) is None
                    &&& addr_ints(addrs@) == old(self).layout(bytes_per_elem).addrs_of(
                        old(self).state().tile_idx as int,
                    )
                    &&& final(self).state() == (StoreState {
                        tile_idx: old(self).state().tile_idx + 1,
                        n_bytes: Some(bytes_per_elem),
                    })
                },
                Err(e) => old(self).accepts(shape@, bytes_per_elem) == Some(e) && final(self).state() == old(
                    self,
                ).state(),
            },
    {
        let layout = self.layout_for(bytes_per_elem);
        let addrs = match layout.tile_addresses_at(self.tile_idx as u64) {
            Some(v) => v,
            None => vstd::pervasive::unreached(),
        };
        self.n_bytes = Some(bytes_per_elem);
        self.tile_idx = self.tile_idx + 1;
        Ok(addrs)
    }
}

/// The store in front of a memory model that takes one address per request:
/// the same addresses, sent one by one.
#[derive(Debug, Clone)]
pub struct OffChipStoreRamulator {
    pub store: OffChipStore,
}

impl OffChipStoreRamulator {
    pub fn new(tensor_shape_tiled: Vec<usize>, tile_row: usize, tile_col: usize, base_addr_byte: u64, addr_offset: u64) -> (s:
        Self)
        ensures
            s.store.tensor_shape_tiled@ == tensor_shape_tiled@,
            s.store.tile_row == tile_row,
            s.store.tile_col == tile_col,
            s.store.base_addr_byte == base_addr_byte,
            s.store.addr_offset == addr_offset,
            s.store.par_dispatch == 1,
            s.store.state() == (StoreState { tile_idx: 0, n_bytes: None }),
    {
        OffChipStoreRamulator {
            store: OffChipStore::new(tensor_shape_tiled, tile_row, tile_col, base_addr_byte, addr_offset, 1),
        }
    }

    /// The entries of one tile.
    pub fn on_chip_req_elems(&self) -> (n: usize)
        requires
            self.store.tile_row * self.store.tile_col <= usize::MAX,
        ensures
            n == self.store.tile_row * self.store.tile_col,
    {
        self.store.on_chip_req_elems()
    }

    /// The entries of all tiles of the tensor.
    pub fn stored_elems(&self) -> (n: usize)
        requires
            shape_product(self.store.tensor_shape_tiled@) <= usize::MAX,
            shape_product(self.store.tensor_shape_tiled@) * self.store.tile_row <= usize::MAX,
            shape_product(self.store.tensor_shape_tiled@) * self.store.tile_row * self.store.tile_col
                <= usize::MAX,
        ensures
            n == shape_product(self.store.tensor_shape_tiled@) * self.store.tile_row * self.store.tile_col,
    {
        self.store.stored_elems()
    }
}

/// Whether the stored tiles came in whole rows of tiles: `stops[k]` says
/// whether tile `k` came with a stop marker, and a tile has one exactly
/// where it is the last of its row of tiles.
pub open spec fn rows_closed(stops: Seq<bool>, tiles_per_row: int) -> bool {
    tiles_per_row > 0 && forall|k: int| 0 <= k < stops.len() ==> #[trigger] stops[k] == ((k + 1) % tiles_per_row == 0)
}

/// Whether the stored tiles came in whole rows of tiles.
pub fn check_rows(stops: &Vec<bool>, tiles_per_row: usize) -> (ok: bool)
    ensures
        ok == rows_closed(stops@, tiles_per_row as int),
{
    if tiles_per_row == 0 {
        return false;
    }
    let mut k: usize = 0;
    while k < stops.len()
        invariant
            k <= stops.len(),
            tiles_per_row > 0,
            forall|m: int| 0 <= m < k ==> #[trigger] stops[m] == ((m + 1) % (tiles_per_row as int) == 0),
        decreases stops.len() - k,
    {
        if stops[k] != ((k + 1) % tiles_per_row == 0) {
            return false;
        }
        k += 1;
    }
    true
}

/// The entry at position `k` of the tensor that the tiles make when they
/// are laid side by side, `tiles_per_row` to a row of tiles, and the tensor
/// is written row by row: position `k` lies in column `k % tile_col` of a
/// tile, in the tile `(k / tile_col) % tiles_per_row` of its row of tiles,
/// and in the row `k / tile_col / tiles_per_row` of the tensor.
pub open spec fn tensor_entry<T>(tiles: Seq<Tile<T>>, tiles_per_row: int, tile_row: int, tile_col: int, k: int) -> T {
    let c = k % tile_col;
    let q = (k / tile_col) % tiles_per_row;
    let row = k / tile_col / tiles_per_row;
    let r = row % tile_row;
    let g = row / tile_row;
    tiles[g * tiles_per_row + q]@.underlying.unwrap()[r * tile_col + c]
}

/// Whether the tiles make a tensor: they fill whole rows of tiles, every
/// tile holds `tile_row * tile_col` entries, and the entries of all tiles
/// are no more than a vector holds.
pub open spec fn assemblable<T>(tiles: Seq<Tile<T>>, tiles_per_row: int, tile_row: int, tile_col: int) -> bool {
    &&& tiles_per_row > 0
    &&& tiles.len() as int % tiles_per_row == 0
    &&& tiles.len() * (tile_row * tile_col) <= usize::MAX
    &&& forall|i: int|
        0 <= i < tiles.len() ==> (#[trigger] tiles[i])@.underlying is Some && tiles[i]@.underlying.unwrap().len()
            == tile_row * tile_col
}

/// The tensor that the tiles make, row by row.
pub open spec fn assembled<T>(tiles: Seq<Tile<T>>, tiles_per_row: int, tile_row: int, tile_col: int) -> Seq<T> {
    Seq::new(
        (tiles.len() * (tile_row * tile_col)) as nat,
        |k: int| tensor_entry(tiles, tiles_per_row, tile_row, tile_col, k),
    )
}

/// Where the assembled tensor holds the entries of the tiles: the entry in
/// row `r` and column `c` of tile `t` stands in row
/// `(t / tiles_per_row) * tile_row + r` of the tensor, whose rows hold
/// `tiles_per_row * tile_col` entries, at column
/// `(t % tiles_per_row) * tile_col + c`.
pub proof fn lemma_assembled_places<T>(
    tiles: Seq<Tile<T>>,
    tiles_per_row: int,
    tile_row: int,
    tile_col: int,
    t: int,
    r: int,
    c: int,
)
    requires
        tiles_per_row > 0,
        tiles.len() as int % tiles_per_row == 0,
        0 <= t < tiles.len(),
        0 <= r < tile_row,
        0 <= c < tile_col,
    ensures
        ({
            let k = ((t / tiles_per_row) * tile_row + r) * (tiles_per_row * tile_col) + (t % tiles_per_row)
                * tile_col + c;
            &&& 0 <= k < assembled(tiles, tiles_per_row, tile_row, tile_col).len()
            &&& assembled(tiles, tiles_per_row, tile_row, tile_col)[k] == tiles[t]@.underlying.unwrap()[r
                * tile_col + c]
        }),
{
    let g = t / tiles_per_row;
    let q = t % tiles_per_row;
    let len = tiles.len() as int;
    let groups = len / tiles_per_row;
    vstd::arithmetic::div_mod::lemma_fundamental_div_mod(t, tiles_per_row);
    vstd::arithmetic::div_mod::lemma_fundamental_div_mod(len, tiles_per_row);
    vstd::arithmetic::div_mod::lemma_div_is_ordered(t, len, tiles_per_row);
    let row = g * tile_row + r;
    let x = row * tiles_per_row + q;
    let k = x * tile_col + c;
    assert(0 <= g) by (nonlinear_arith)
        requires
            g == t / tiles_per_row,
            t >= 0,
            tiles_per_row > 0,
    ;
    assert(g < groups) by (nonlinear_arith)
        requires
            t == tiles_per_row * g + q,
            len == tiles_per_row * groups,
            0 <= q < tiles_per_row,
            t < len,
    ;
    assert(0 <= row < groups * tile_row) by (nonlinear_arith)
        requires
            row == g * tile_row + r,
            0 <= g < groups,
            0 <= r < tile_row,
    ;
    assert(0 <= x < groups * tile_row * tiles_per_row) by (nonlinear_arith)
        requires
            x == row * tiles_per_row + q,
            0 <= row < groups * tile_row,
            0 <= q < tiles_per_row,
    ;
    assert(0 <= k < groups * tile_row * tiles_per_row * tile_col) by (nonlinear_arith)
        requires
            k == x * tile_col + c,
            0 <= x < groups * tile_row * tiles_per_row,
            0 <= c < tile_col,
    ;
    assert(groups * tile_row * tiles_per_row * tile_col == len * (tile_row * tile_col)) by (nonlinear_arith)
        requires
            len == tiles_per_row * groups,
    ;
    assert(k == ((t / tiles_per_row) * tile_row + r) * (tiles_per_row * tile_col) + (t % tiles_per_row) * tile_col
        + c) by (nonlinear_arith)
        requires
            k == x * tile_col + c,
            x == row * tiles_per_row + q,
            row == g * tile_row + r,
            g == t / tiles_per_row,
            q == t % tiles_per_row,
    ;
    vstd::arithmetic::div_mod::lemma_fundamental_div_mod_converse(k, tile_col, x, c);
    vstd::arithmetic::div_mod::lemma_fundamental_div_mod_converse(x, tiles_per_row, row, q);
    vstd::arithmetic::div_mod::lemma_fundamental_div_mod_converse(row, tile_row, g, r);
    assert(g * tiles_per_row + q == t) by (nonlinear_arith)
        requires
            t == tiles_per_row * g + q,
    ;
}

/// The tensor that the stored tiles make, written row by row: the tiles
/// come in the order of storing, `tiles_per_row` of them side by side in
/// every row of tiles. `None` where the tiles do not make a tensor.
pub fn assemble_tensor<T: Copy>(tiles: &Vec<Tile<T>>, tiles_per_row: usize, tile_row: usize, tile_col: usize) -> (data:
    Option<Vec<T>>)
    ensures
        data.is_some() == assemblable(tiles@, tiles_per_row as int, tile_row as int, tile_col as int),
        data matches Some(v) ==> v@ == assembled(tiles@, tiles_per_row as int, tile_row as int, tile_col as int),
{
    if tiles_per_row == 0 || tiles.len() % tiles_per_row != 0 {
        return None;
    }
    let mut data: Vec<T> = Vec::new();
    if tiles.len() == 0 {
        proof {
            assert(0 * (tile_row * tile_col) == 0) by (nonlinear_arith);
            assert(data@ =~= assembled(tiles@, tiles_per_row as int, tile_row as int, tile_col as int));
        }
        return Some(data);
    }
    let n = match tile_row.checked_mul(tile_col) {
        Some(v) => v,
        None => {
            assert(tiles.len() * (tile_row * tile_col) > usize::MAX) by (nonlinear_arith)
                requires
                    tiles.len() >= 1,
                    tile_row * tile_col > usize::MAX,
            ;
            return None;
        },
    };
    let total = match tiles.len().checked_mul(n) {
        Some(v) => v,
        None => {
            return None;
        },
    };
    let mut i: usize = 0;
    while i < tiles.len()
        invariant
            i <= tiles.len(),
            n == tile_row * tile_col,
            forall|m: int|
                0 <= m < i ==> (#[trigger] tiles[m])@.underlying is Some && tiles[m]@.underlying.unwrap().len() == n,
        decreases tiles.len() - i,
    {
        match &tiles[i].underlying {
            Some(v) => {
                if v.len() != n {
                    return None;
                }
            },
            None => {
                return None;
            },
        }
        i += 1;
    }
    let ghost groups = tiles.len() as int / tiles_per_row as int;
    proof {
        vstd::arithmetic::div_mod::lemma_fundamental_div_mod(tiles.len() as int, tiles_per_row as int);
    }
    let mut k: usize = 0;
    while k < total
        invariant
            k <= total,
            data.len() == k,
            n == tile_row * tile_col,
            total == tiles.len() * n,
            tiles_per_row > 0,
            tiles.len() == tiles_per_row * groups,
            forall|m: int|
                0 <= m < tiles.len() ==> (#[trigger] tiles[m])@.underlying is Some && tiles[m]@.underlying.unwrap().len()
                    == n,
            forall|m: int|
                0 <= m < k ==> #[trigger] data[m] == tensor_entry(
                    tiles@,
                    tiles_per_row as int,
                    tile_row as int,
                    tile_col as int,
                    m,
                ),
        decreases total - k,
    {
        proof {
            assert(tile_row > 0 && tile_col > 0) by (nonlinear_arith)
                requires
                    k < tiles.len() * (tile_row * tile_col),
                    k >= 0,
                    tile_row >= 0,
                    tile_col >= 0,
                    tiles.len() >= 0,
            ;
        }
        let c = k % tile_col;
        let x = k / tile_col;
        let q = x % tiles_per_row;
        let row = x / tiles_per_row;
        let r = row % tile_row;
        let g = row / tile_row;
        proof {
            let len = tiles.len() as int;
            assert(k < tile_col * (len * tile_row)) by (nonlinear_arith)
                requires
                    k < len * (tile_row * tile_col),
            ;
            vstd::arithmetic::div_mod::lemma_multiply_divide_lt(k as int, tile_col as int, len * tile_row);
            assert(len * tile_row == tiles_per_row * (groups * tile_row)) by (nonlinear_arith)
                requires
                    len == tiles_per_row * groups,
            ;
            vstd::arithmetic::div_mod::lemma_multiply_divide_lt(x as int, tiles_per_row as int, groups * tile_row);
            assert(groups * tile_row == tile_row * groups) by (nonlinear_arith);
            vstd::arithmetic::div_mod::lemma_multiply_divide_lt(row as int, tile_row as int, groups);
            assert(g * tiles_per_row + q < len) by (nonlinear_arith)
                requires
                    0 <= g < groups,
                    0 <= q < tiles_per_row,
                    len == tiles_per_row * groups,
            ;
            assert(0 <= g * tiles_per_row) by (nonlinear_arith)
                requires
                    0 <= g,
                    0 < tiles_per_row,
            ;
            assert(r * tile_col + c < tile_row * tile_col && r * tile_col >= 0) by (nonlinear_arith)
                requires
                    0 <= r < tile_row,
                    0 <= c < tile_col,
            ;
        }
        let t = g * tiles_per_row + q;
        let entries = match &tiles[t].underlying {
            Some(v) => v,
            None => vstd::pervasive::unreached(),
        };
        let ghost before = data@;
        data.push(entries[r * tile_col + c]);
        proof {
            assert forall|m: int| 0 <= m < k + 1 implies #[trigger] data[m] == tensor_entry(
                tiles@,
                tiles_per_row as int,
                tile_row as int,
                tile_col as int,
                m,
            ) by {
                if m < k {
                    assert(data[m] == before[m]);
                }
            }
        }
        k += 1;
    }
    proof {
        assert(data@ =~= assembled(tiles@, tiles_per_row as int, tile_row as int, tile_col as int));
    }
    Some(data)
}

} // verus!
