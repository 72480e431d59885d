use vstd::prelude::*;

use super::{addr_ints, HbmAddrEnum, TileLayout};
use crate::primitives::elem::{Bufferizable, StopType};
use crate::primitives::tile::{checked_shape_product, lemma_shape_product_positive, shape_product, Tile, TileView};
use crate::utils::calculation::{all_positive, get_stop_level, stop_level_at, strided_index};

verus! {

/// The tile of the tensor that position `flat` of the output reads: the
/// position under the strides, wrapped around the number of tiles.
pub open spec fn source_tile(shape: Seq<usize>, stride: Seq<usize>, tiles: nat, flat: nat) -> nat {
    if tiles > 0 {
        strided_index(shape, stride, flat) % tiles
    } else {
        0
    }
}

/// Computes the tile that position `flat` of the output reads.
pub fn source_tile_of(shape: &Vec<usize>, stride: &Vec<usize>, tiles: usize, flat: usize) -> (idx: usize)
    requires
        shape.len() == stride.len(),
        all_positive(shape@),
    ensures
        idx == source_tile(shape@, stride@, tiles as nat, flat as nat),
        tiles > 0 ==> idx < tiles,
{
    if tiles == 0 {
        return 0;
    }
    let m: u128 = tiles as u128;
    let mut acc: u128 = 0;
    let ghost mut exact: int = 0;
    let mut rest: usize = flat;
    let mut n: usize = shape.len();
    proof {
        assert(shape@.subrange(0, n as int) =~= shape@);
        assert(stride@.subrange(0, n as int) =~= stride@);
    }
    while n > 0
        invariant
            n <= shape.len(),
            shape.len() == stride.len(),
            all_positive(shape@),
            m == tiles,
            m > 0,
            acc < m,
            exact >= 0,
            acc == exact % (m as int),
            strided_index(shape@, stride@, flat as nat) == exact + strided_index(
                shape@.subrange(0, n as int),
                stride@.subrange(0, n as int),
                rest as nat,
            ),
        decreases n,
    {
        let d = shape[n - 1];
        let st = stride[n - 1];
        let ghost cur_shape = shape@.subrange(0, n as int);
        let ghost cur_stride = stride@.subrange(0, n as int);
        assert(cur_shape.last() == d && cur_stride.last() == st);
        assert(cur_shape.drop_last() =~= shape@.subrange(0, n - 1));
        assert(cur_stride.drop_last() =~= stride@.subrange(0, n - 1));
        assert(d > 0);
        let idx_in_dim = rest % d;
        proof {
            assert(idx_in_dim as int * st as int <= 0xffff_ffff_ffff_ffff * 0xffff_ffff_ffff_ffff) by (nonlinear_arith)
                requires
                    0 <= idx_in_dim <= 0xffff_ffff_ffff_ffff,
                    0 <= st <= 0xffff_ffff_ffff_ffff,
            ;
            assert(idx_in_dim as int * st as int >= 0) by (nonlinear_arith)
                requires
                    0 <= idx_in_dim,
                    0 <= st,
            ;
        }
        let term: u128 = idx_in_dim as u128 * st as u128;
        let reduced: u128 = term % m;
        proof {
            vstd::arithmetic::div_mod::lemma_add_mod_noop(exact, term as int, m as int);
        }
        acc = (acc + reduced) % m;
        proof {
            exact = exact + term as int;
        }
        rest = rest / d;
        n -= 1;
    }
    assert(shape@.subrange(0, 0).len() == 0);
    acc as usize
}

/// The request for one position of the output: the tile to fetch, and the
/// stop level to send it with, none where no dimension ends.
pub struct LoadEntry {
    pub tile_idx: nat,
    pub stop: Option<StopType>,
}

/// Fetches the tiles of a tensor from off-chip memory in the order of a
/// strided view of it.
#[derive(Debug, Clone)]
pub struct OffChipLoad {
    pub layout: TileLayout,
    pub stride: Vec<usize>,
    pub out_shape_tiled: Vec<usize>,
    pub par_dispatch: usize,
}

impl OffChipLoad {
    /// The number of positions of the output.
    pub open spec fn total_tiles(&self) -> nat {
        shape_product(self.out_shape_tiled@)
    }

    /// The layout is well formed, the view has a stride for every axis, and
    /// the numbers of positions and of axes fit the machine.
    pub open spec fn wf(&self) -> bool {
        &&& self.layout.wf()
        &&& self.stride@.len() == self.out_shape_tiled@.len()
        &&& self.out_shape_tiled@.len() <= u32::MAX
        &&& self.total_tiles() <= usize::MAX
        &&& self.par_dispatch > 0
    }

    /// What position `flat` of the output asks for.
    pub open spec fn entry(&self, flat: nat) -> LoadEntry {
        LoadEntry {
            tile_idx: source_tile(self.out_shape_tiled@, self.stride@, self.layout.tiles(), flat),
            stop: crate::operator::partition::level_marker(stop_level_at(self.out_shape_tiled@, flat)),
        }
    }

    /// The loader for the given tensor and view. `None` where the view and
    /// the strides differ in their number of axes, where nothing is
    /// dispatched per cycle, or where the layout is not well formed.
    pub fn new(
        tensor_shape_tiled: Vec<usize>,
        stride: Vec<usize>,
        out_shape_tiled: Vec<usize>,
        tile_row: usize,
        tile_col: usize,
        n_byte: usize,
        base_addr_byte: u64,
        addr_offset: u64,
        par_dispatch: usize,
    ) -> (r: Option<Self>)
        ensures
            r matches Some(l) ==> {
                &&& l.wf()
                &&& l.layout.tensor_shape_tiled@ == tensor_shape_tiled@
                &&& l.layout.tile_row == tile_row
                &&& l.layout.tile_col == tile_col
                &&& l.layout.n_byte == n_byte
                &&& l.layout.base_addr_byte == base_addr_byte
                &&& l.layout.addr_offset == addr_offset
                &&& l.stride@ == stride@
                &&& l.out_shape_tiled@ == out_shape_tiled@
                &&& l.par_dispatch == par_dispatch
            },
            r is None <==> !(OffChipLoad {
                layout: TileLayout { tensor_shape_tiled, tile_row, tile_col, n_byte, base_addr_byte, addr_offset },
                stride,
                out_shape_tiled,
                par_dispatch,
            }).wf(),
    {
        let layout = TileLayout { tensor_shape_tiled, tile_row, tile_col, n_byte, base_addr_byte, addr_offset };
        let l = OffChipLoad { layout, stride, out_shape_tiled, par_dispatch };
        if l.check() {
            Some(l)
        } else {
            None
        }
    }

    /// Whether the loader is well formed.
    pub fn check(&self) -> (ok: bool)
        ensures
            ok == self.wf(),
    {
        self.layout.check() && self.stride.len() == self.out_shape_tiled.len() && self.out_shape_tiled.len()
            <= u32::MAX as usize && checked_shape_product(&self.out_shape_tiled).is_some() && self.par_dispatch
            > 0
    }

    /// The entries of one tile.
    pub fn on_chip_req_elems(&self) -> (n: usize)
        requires
            self.layout.tile_row * self.layout.tile_col <= usize::MAX,
        ensures
            n == self.layout.tile_row * self.layout.tile_col,
    {
        self.layout.tile_row * self.layout.tile_col
    }

    /// The entries of all tiles that are fetched.
    pub fn loaded_elems(&self) -> (n: usize)
        requires
            self.total_tiles() * self.layout.tile_row * self.layout.tile_col <= usize::MAX,
            self.total_tiles() <= usize::MAX,
            self.total_tiles() * self.layout.tile_row <= usize::MAX,
        ensures
            n == self.total_tiles() * self.layout.tile_row * self.layout.tile_col,
    {
        let total_tiles = checked_shape_product(&self.out_shape_tiled).unwrap();
        total_tiles * self.layout.tile_row * self.layout.tile_col
    }

    /// The request for every position of the output, in row-major order:
    /// the addresses to fetch, the tile, and the stop level where a
    /// dimension ends. `tile_data` holds the tiles of the tensor when values
    /// are simulated; without it the tiles are blank. A tile without bytes
    /// has no addresses and is left out.
    pub fn generate_addr<T: Copy>(&self, tile_data: &Option<Vec<Tile<T>>>) -> (addrs: Vec<HbmAddrEnum<T>>)
        requires
            self.wf(),
            tile_data matches Some(tiles) ==> tiles.len() >= self.layout.tiles() && tiles.len() >= 1,
        ensures
            addrs.len() == if self.layout.addrs_of(0).len() == 0 {
                0
            } else {
                self.total_tiles()
            },
            forall|i: int|
                0 <= i < addrs.len() ==> self.describes(
                    #[trigger] addrs[i],
                    self.entry(i as nat),
                    match tile_data {
                        Some(tiles) => Some(tiles@),
                        None => None,
                    },
                ),
    {
        let total_tiles = checked_shape_product(&self.out_shape_tiled).unwrap();
        let source_tiles = checked_shape_product(&self.layout.tensor_shape_tiled).unwrap();
        let mut addrs: Vec<HbmAddrEnum<T>> = Vec::new();
        let probe = self.layout.generate_tile_addresses(0);
        if probe.len() == 0 {
            assert(addr_ints(probe@).len() == 0);
            return addrs;
        }
        assert(addr_ints(probe@).len() == probe.len());
        proof {
            if total_tiles > 0 {
                lemma_shape_product_positive(self.out_shape_tiled@);
            }
        }
        let ghost data = match tile_data {
            Some(tiles) => Some(tiles@),
            None => None,
        };
        let mut flat_idx: usize = 0;
        while flat_idx < total_tiles
            invariant
                flat_idx <= total_tiles,
                self.wf(),
                total_tiles == self.total_tiles(),
                source_tiles == self.layout.tiles(),
                total_tiles > 0 ==> all_positive(self.out_shape_tiled@),
                tile_data matches Some(tiles) ==> tiles.len() >= self.layout.tiles() && tiles.len() >= 1,
                data == match tile_data {
                    Some(tiles) => Some(tiles@),
                    None => None,
                },
                addrs.len() == flat_idx,
                forall|i: int| 0 <= i < flat_idx ==> self.describes(#[trigger] addrs[i], self.entry(i as nat), data),
            decreases total_tiles - flat_idx,
        {
            let tile_idx = source_tile_of(&self.out_shape_tiled, &self.stride, source_tiles, flat_idx);
            let tile_addrs = self.layout.generate_tile_addresses(tile_idx as u64);
            let level = get_stop_level(flat_idx, self.out_shape_tiled.as_slice());
            let tile = match tile_data {
                Some(tiles) => tiles[tile_idx].clone_with_updated_read_from_mu(tiles[tile_idx].read_from_mu),
                None => {
                    let mut shape: Vec<usize> = Vec::with_capacity(2);
                    shape.push(self.layout.tile_row);
                    shape.push(self.layout.tile_col);
                    assert(shape@ =~= seq![self.layout.tile_row, self.layout.tile_col]);
                    Tile::new_blank(shape, self.layout.n_byte, true)
                },
            };
            let ghost prev = addrs@;
            let item = if level == 0 {
                HbmAddrEnum::ADDR(tile_addrs, tile)
            } else {
                HbmAddrEnum::ADDRSTOP(tile_addrs, tile, level as StopType)
            };
            addrs.push(item);
            assert forall|i: int| 0 <= i < flat_idx implies addrs[i] == prev[i] by {}
            flat_idx += 1;
        }
        addrs
    }

    /// Whether `item` is the request for `entry`: its addresses are those of
    /// the tile, its tile is the tile of the tensor, or a blank tile to be
    /// read from memory when no values are simulated, and its stop level is
    /// the entry's.
    pub open spec fn describes<T>(&self, item: HbmAddrEnum<T>, entry: LoadEntry, data: Option<Seq<Tile<T>>>) -> bool {
        let (addrs, tile, stop) = match item {
            HbmAddrEnum::ADDR(a, t) => (a, t, None::<StopType>),
            HbmAddrEnum::ADDRSTOP(a, t, s) => (a, t, Some(s)),
        };
        &&& addr_ints(addrs@) == self.layout.addrs_of(entry.tile_idx as int)
        &&& stop == entry.stop
        &&& match data {
            Some(tiles) => entry.tile_idx < tiles.len() && tile@ == tiles[entry.tile_idx as int]@,
            None => tile@ == (TileView::<T> {
                shape: seq![self.layout.tile_row, self.layout.tile_col],
                bytes_per_elem: self.layout.n_byte,
                read_from_mu: true,
                underlying: None,
                offset: self.layout.tile_row,
            }),
        }
    }
}

} // verus!
