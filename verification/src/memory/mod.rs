use vstd::prelude::*;

pub mod dyn_offchip_load;
pub mod hbm;
pub mod metadata_gen;
pub mod offchip_load;
pub mod offchip_store;
pub mod random_offchip_load;
pub mod random_offchip_store;

use crate::primitives::elem::{Bufferizable, StopType};
use crate::primitives::tile::Tile;
use itertools::Itertools;
use crate::utils::calculation::{ceil_div, div_ceil, lemma_ceil_div_bounds};

verus! {

/// The bandwidth of a memory unit, in bytes per cycle.
pub const PMU_BW: u64 = 64;

/// The cycles that moving `bytes` bytes to or from a memory unit takes.
pub open spec fn transfer_cost(bytes: nat) -> nat {
    ceil_div(bytes as int, PMU_BW as int) as nat
}

/// The cycles that a consumer is charged before it can use a payload:
/// the transfer if the payload is read from a memory unit, else none.
pub open spec fn load_cost(read_from_mu: bool, bytes: nat) -> nat {
    if read_from_mu {
        transfer_cost(bytes)
    } else {
        0
    }
}

/// The cycles that moving one payload to or from a memory unit takes.
pub fn transfer_cycles<A: Bufferizable>(data: &A) -> (c: u64)
    requires
        data.sized(),
    ensures
        c == transfer_cost(data.spec_size_in_bytes()),
        c <= data.spec_size_in_bytes(),
{
    let bytes = data.size_in_bytes() as u64;
    proof {
        lemma_ceil_div_bounds(bytes as int, PMU_BW as int);
    }
    div_ceil(bytes, PMU_BW)
}

/// The cycles that a consumer is charged before it can use `data`.
pub fn load_cycles<A: Bufferizable>(data: &A) -> (c: u64)
    requires
        data.sized(),
    ensures
        c == load_cost(data.spec_read_from_mu(), data.spec_size_in_bytes()),
        c <= data.spec_size_in_bytes(),
{
    if data.read_from_mu() {
        transfer_cycles(data)
    } else {
        0
    }
}

/// The addresses to request for one tile, the tile, and for the last tile
/// of a dimension the stop level to send it with.
#[derive(Debug)]
pub enum HbmAddrEnum<T> {
    ADDR(Vec<u64>, Tile<T>),
    ADDRSTOP(Vec<u64>, Tile<T>, StopType),
}

/// The addresses of the requests that cover `row_bytes` bytes from `start`
/// on, from byte `c` of them on: one every `step` bytes.
pub open spec fn row_addrs(start: int, c: int, row_bytes: int, step: int) -> Seq<int>
    decreases (if row_bytes > c {
        row_bytes - c
    } else {
        0
    }),
{
    if c >= row_bytes || step <= 0 {
        Seq::empty()
    } else {
        seq![start + c] + row_addrs(start, c + step, row_bytes, step)
    }
}

/// The addresses of the requests that cover the rows `r..tile_row` of a
/// tile whose rows lie `row_offset` bytes apart in memory.
pub open spec fn tile_addrs(base: int, r: int, tile_row: int, row_offset: int, row_bytes: int, step: int) -> Seq<
    int,
>
    decreases tile_row - r,
{
    if r >= tile_row {
        Seq::empty()
    } else {
        row_addrs(base + r * row_offset, 0, row_bytes, step) + tile_addrs(
            base,
            r + 1,
            tile_row,
            row_offset,
            row_bytes,
            step,
        )
    }
}

/// The addresses as numbers.
pub open spec fn addr_ints(v: Seq<u64>) -> Seq<int> {
    Seq::new(v.len(), |i: int| v[i] as int)
}

/// The addresses of the requests that fetch or store one tile: for every
/// row of the tile, one request every `addr_offset` bytes of the row.
/// `base_addr_i` is the address of the tile, `row_bytes` the bytes of one
/// row of it, `row_offset` the distance between its rows in memory.
pub fn tile_addresses(base_addr_i: u64, tile_row: usize, row_bytes: usize, row_offset: usize, addr_offset: u64) -> (addrs:
    Vec<u64>)
    requires
        addr_offset > 0,
        base_addr_i + tile_row * row_offset + row_bytes + addr_offset <= u64::MAX,
    ensures
        addr_ints(addrs@) == tile_addrs(
            base_addr_i as int,
            0,
            tile_row as int,
            row_offset as int,
            row_bytes as int,
            addr_offset as int,
        ),
{
    let mut tile_addrs_vec: Vec<u64> = Vec::new();
    let mut r: usize = 0;
    let mut row_start: u64 = base_addr_i;
    let ghost total = tile_addrs(
        base_addr_i as int,
        0,
        tile_row as int,
        row_offset as int,
        row_bytes as int,
        addr_offset as int,
    );
    proof {
        assert(addr_ints(tile_addrs_vec@) =~= Seq::<int>::empty());
        assert(Seq::<int>::empty() + total =~= total);
        assert(0 * row_offset == 0) by (nonlinear_arith);
    }
    while r < tile_row
        invariant
            r <= tile_row,
            addr_offset > 0,
            base_addr_i + tile_row * row_offset + row_bytes + addr_offset <= u64::MAX,
            r < tile_row ==> row_start == base_addr_i + r * row_offset,
            total == addr_ints(tile_addrs_vec@) + tile_addrs(
                base_addr_i as int,
                r as int,
                tile_row as int,
                row_offset as int,
                row_bytes as int,
                addr_offset as int,
            ),
        decreases tile_row - r,
    {
        let ghost before = addr_ints(tile_addrs_vec@);
        let ghost row = row_addrs(row_start as int, 0, row_bytes as int, addr_offset as int);
        proof {
            assert((r + 1) * row_offset <= tile_row * row_offset) by (nonlinear_arith)
                requires
                    r + 1 <= tile_row,
                    row_offset >= 0,
            ;
            assert((r + 1) * row_offset == r * row_offset + row_offset) by (nonlinear_arith);
            assert(before + Seq::<int>::empty() =~= before);
        }
        let mut c: u64 = 0;
        while c < row_bytes as u64
            invariant
                addr_offset > 0,
                c <= row_bytes + addr_offset,
                row_start + row_bytes + addr_offset <= u64::MAX,
                before + row == addr_ints(tile_addrs_vec@) + row_addrs(
                    row_start as int,
                    c as int,
                    row_bytes as int,
                    addr_offset as int,
                ),
            decreases row_bytes + addr_offset - c,
        {
            let ghost built = addr_ints(tile_addrs_vec@);
            let addr: u64 = row_start + c;
            tile_addrs_vec.push(addr);
            proof {
                let rest = row_addrs(row_start as int, c + addr_offset, row_bytes as int, addr_offset as int);
                assert(addr_ints(tile_addrs_vec@) =~= built.push(addr as int));
                assert(built + (seq![addr as int] + rest) =~= built.push(addr as int) + rest);
            }
            c = c + addr_offset;
        }
        proof {
            let rest = tile_addrs(
                base_addr_i as int,
                r + 1,
                tile_row as int,
                row_offset as int,
                row_bytes as int,
                addr_offset as int,
            );
            assert(addr_ints(tile_addrs_vec@) + Seq::<int>::empty() =~= addr_ints(tile_addrs_vec@));
            assert(before + (row + rest) =~= (before + row) + rest);
        }
        r += 1;
        if r < tile_row {
            row_start = row_start + row_offset as u64;
        }
    }
    proof {
        assert(addr_ints(tile_addrs_vec@) + Seq::<int>::empty() =~= addr_ints(tile_addrs_vec@));
    }
    tile_addrs_vec
}

/// Every address is one that a machine word holds.
pub open spec fn addrs_fit(a: Seq<int>) -> bool {
    forall|k: int| 0 <= k < a.len() ==> #[trigger] a[k] <= u64::MAX
}

/// A tile without rows, or with rows without bytes, has no addresses.
pub proof fn lemma_tile_addrs_none(base: int, r: int, tile_row: int, row_offset: int, row_bytes: int, step: int)
    requires
        tile_row <= r || row_bytes <= 0,
    ensures
        tile_addrs(base, r, tile_row, row_offset, row_bytes, step) == Seq::<int>::empty(),
    decreases tile_row - r,
{
    if r < tile_row {
        lemma_tile_addrs_none(base, r + 1, tile_row, row_offset, row_bytes, step);
        assert(Seq::<int>::empty() + Seq::<int>::empty() =~= Seq::<int>::empty());
    }
}

/// The first address of the rows `r..tile_row` of a tile that has rows and
/// bytes in them is the address of row `r`.
pub proof fn lemma_tile_addrs_first(base: int, r: int, tile_row: int, row_offset: int, row_bytes: int, step: int)
    requires
        r < tile_row,
        row_bytes > 0,
        step > 0,
    ensures
        tile_addrs(base, r, tile_row, row_offset, row_bytes, step).len() > 0,
        tile_addrs(base, r, tile_row, row_offset, row_bytes, step)[0] == base + r * row_offset,
{
    let row = row_addrs(base + r * row_offset, 0, row_bytes, step);
    assert(row[0] == base + r * row_offset);
}

/// A row is covered by as many requests as `step` bytes go into what is
/// left of it, the last of them counted whole.
pub proof fn lemma_row_addrs_len(start: int, c: int, row_bytes: int, step: int)
    requires
        step > 0,
    ensures
        row_addrs(start, c, row_bytes, step).len() == if c >= row_bytes {
            0
        } else {
            crate::utils::calculation::ceil_div(row_bytes - c, step)
        },
    decreases
            (if row_bytes > c {
                row_bytes - c
            } else {
                0
            }),
{
    if c < row_bytes {
        let x = row_bytes - c;
        lemma_row_addrs_len(start, c + step, row_bytes, step);
        vstd::arithmetic::div_mod::lemma_fundamental_div_mod(x, step);
        vstd::arithmetic::div_mod::lemma_mod_bound(x, step);
        let q = x / step;
        let r = x % step;
        if x > step {
            assert(x - step == (q - 1) * step + r) by (nonlinear_arith)
                requires
                    x == step * q + r,
            ;
            vstd::arithmetic::div_mod::lemma_fundamental_div_mod_converse(x - step, step, q - 1, r);
        } else if x == step {
            vstd::arithmetic::div_mod::lemma_fundamental_div_mod_converse(x, step, 1, 0);
        } else {
            vstd::arithmetic::div_mod::lemma_fundamental_div_mod_converse(x, step, 0, x);
        }
    }
}

/// The rows `r..tile_row` of a tile are covered by as many requests as one
/// row is, times the number of the rows.
pub proof fn lemma_tile_addrs_len(base: int, r: int, tile_row: int, row_offset: int, row_bytes: int, step: int)
    requires
        step > 0,
        0 <= r <= tile_row,
        row_bytes >= 0,
    ensures
        tile_addrs(base, r, tile_row, row_offset, row_bytes, step).len() == (tile_row - r)
            * crate::utils::calculation::ceil_div(row_bytes, step),
    decreases tile_row - r,
{
    let per_row = crate::utils::calculation::ceil_div(row_bytes, step);
    if r < tile_row {
        lemma_tile_addrs_len(base, r + 1, tile_row, row_offset, row_bytes, step);
        lemma_row_addrs_len(base + r * row_offset, 0, row_bytes, step);
        if row_bytes == 0 {
            vstd::arithmetic::div_mod::lemma_fundamental_div_mod_converse(0, step, 0, 0);
        }
        assert((tile_row - r) * per_row == per_row + (tile_row - (r + 1)) * per_row) by (nonlinear_arith);
    } else {
        assert((tile_row - r) * per_row == 0) by (nonlinear_arith)
            requires
                tile_row - r == 0,
        ;
    }
}

/// The addresses of the requests that fetch or store tile number
/// `tile_idx` of a tensor whose tiles lie `tile_offset` bytes apart from
/// `base_addr_byte` on: for every row of the tile, one request every
/// `addr_offset` bytes of the row. `None` where one of the addresses is
/// more than a machine word holds.
pub fn checked_tile_addresses(
    base_addr_byte: u64,
    tile_idx: u64,
    tile_offset: usize,
    tile_row: usize,
    row_bytes: usize,
    row_offset: usize,
    addr_offset: u64,
) -> (r: Option<Vec<u64>>)
    requires
        addr_offset > 0,
    ensures
        r.is_some() == addrs_fit(
            tile_addrs(
                base_addr_byte + tile_idx * tile_offset,
                0,
                tile_row as int,
                row_offset as int,
                row_bytes as int,
                addr_offset as int,
            ),
        ),
        r matches Some(v) ==> addr_ints(v@) == tile_addrs(
            base_addr_byte + tile_idx * tile_offset,
            0,
            tile_row as int,
            row_offset as int,
            row_bytes as int,
            addr_offset as int,
        ),
{
    let ghost base: int = base_addr_byte + tile_idx * tile_offset;
    let ghost total = tile_addrs(
        base,
        0,
        tile_row as int,
        row_offset as int,
        row_bytes as int,
        addr_offset as int,
    );
    let mut out: Vec<u64> = Vec::new();
    if tile_row == 0 || row_bytes == 0 {
        proof {
            lemma_tile_addrs_none(base, 0, tile_row as int, row_offset as int, row_bytes as int, addr_offset as int);
            assert(addr_ints(out@) =~= total);
        }
        return Some(out);
    }
    proof {
        lemma_tile_addrs_first(base, 0, tile_row as int, row_offset as int, row_bytes as int, addr_offset as int);
        assert(0 * row_offset == 0) by (nonlinear_arith);
        assert(tile_idx * tile_offset >= 0) by (nonlinear_arith)
            requires
                tile_idx >= 0,
                tile_offset >= 0,
        ;
    }
    let span = match tile_idx.checked_mul(tile_offset as u64) {
        Some(v) => v,
        None => {
            assert(total[0] > u64::MAX);
            return None;
        },
    };
    let mut row_start: u64 = match base_addr_byte.checked_add(span) {
        Some(v) => v,
        None => {
            assert(total[0] > u64::MAX);
            return None;
        },
    };
    let mut r: usize = 0;
    proof {
        assert(addr_ints(out@) =~= Seq::<int>::empty());
        assert(Seq::<int>::empty() + total =~= total);
    }
    while r < tile_row
        invariant
            r <= tile_row,
            addr_offset > 0,
            row_bytes > 0,
            r < tile_row ==> row_start == base + r * row_offset,
            total == addr_ints(out@) + tile_addrs(
                base,
                r as int,
                tile_row as int,
                row_offset as int,
                row_bytes as int,
                addr_offset as int,
            ),
            total == tile_addrs(base, 0, tile_row as int, row_offset as int, row_bytes as int, addr_offset as int),
            base == base_addr_byte + tile_idx * tile_offset,
        decreases tile_row - r,
    {
        let ghost below = tile_addrs(
            base,
            r + 1,
            tile_row as int,
            row_offset as int,
            row_bytes as int,
            addr_offset as int,
        );
        let mut c: u64 = 0;
        while c < row_bytes as u64
            invariant
                addr_offset > 0,
                total == addr_ints(out@) + (row_addrs(
                    row_start as int,
                    c as int,
                    row_bytes as int,
                    addr_offset as int,
                ) + below),
                total == tile_addrs(base, 0, tile_row as int, row_offset as int, row_bytes as int, addr_offset as int),
                base == base_addr_byte + tile_idx * tile_offset,
            decreases
                    (if row_bytes > c {
                        row_bytes - c
                    } else {
                        0
                    }),
        {
            let ghost built = addr_ints(out@);
            let ghost rest = row_addrs(row_start as int, c + addr_offset, row_bytes as int, addr_offset as int);
            let addr: u64 = match row_start.checked_add(c) {
                Some(v) => v,
                None => {
                    assert(total[out.len() as int] == row_start + c);
                    return None;
                },
            };
            out.push(addr);
            proof {
                assert(addr_ints(out@) =~= built.push(addr as int));
                assert(built + ((seq![addr as int] + rest) + below) =~= built.push(addr as int) + (rest + below));
            }
            c = match c.checked_add(addr_offset) {
                Some(v) => v,
                None => {
                    assert(rest =~= row_addrs(
                        row_start as int,
                        row_bytes as int,
                        row_bytes as int,
                        addr_offset as int,
                    ));
                    row_bytes as u64
                },
            };
        }
        proof {
            assert(Seq::<int>::empty() + below =~= below);
            assert((r + 1) * row_offset == r * row_offset + row_offset) by (nonlinear_arith);
        }
        r += 1;
        if r < tile_row {
            row_start = match row_start.checked_add(row_offset as u64) {
                Some(v) => v,
                None => {
                    proof {
                        lemma_tile_addrs_first(
                            base,
                            r as int,
                            tile_row as int,
                            row_offset as int,
                            row_bytes as int,
                            addr_offset as int,
                        );
                        assert(total[out.len() as int] == below[0]);
                    }
                    return None;
                },
            };
        }
    }
    proof {
        assert(addr_ints(out@) + Seq::<int>::empty() =~= addr_ints(out@));
        assert forall|k: int| 0 <= k < total.len() implies #[trigger] total[k] <= u64::MAX by {
            assert(total[k] == out@[k] as int);
        }
    }
    Some(out)
}

/// How the tiles of a tensor lie in memory: the tensor's shape in tiles, the
/// shape of a tile, the bytes of an entry, the address of the first tile,
/// and the bytes that one request moves.
#[derive(Debug, Clone)]
pub struct TileLayout {
    pub tensor_shape_tiled: Vec<usize>,
    pub tile_row: usize,
    pub tile_col: usize,
    pub n_byte: usize,
    pub base_addr_byte: u64,
    pub addr_offset: u64,
}

impl TileLayout {
    /// The number of tiles in the innermost axis of the tensor.
    pub open spec fn last_dim(&self) -> int {
        if self.tensor_shape_tiled@.len() > 0 {
            self.tensor_shape_tiled@.last() as int
        } else {
            0
        }
    }

    /// The bytes of one tile.
    pub open spec fn tile_offset(&self) -> int {
        self.tile_row * self.tile_col * self.n_byte
    }

    /// The bytes of one row of a tile.
    pub open spec fn row_bytes(&self) -> int {
        self.tile_col * self.n_byte
    }

    /// The distance in bytes between two rows of a tile in memory.
    pub open spec fn row_offset(&self) -> int {
        self.last_dim() * self.tile_col * self.n_byte
    }

    /// The number of tiles of the tensor.
    pub open spec fn tiles(&self) -> nat {
        crate::primitives::tile::shape_product(self.tensor_shape_tiled@)
    }

    /// The tensor has an innermost axis, requests move bytes, and every
    /// number that the addresses are made of fits the machine word.
    pub open spec fn wf(&self) -> bool {
        &&& self.tensor_shape_tiled@.len() > 0
        &&& self.addr_offset > 0
        &&& self.tiles() <= usize::MAX
        &&& self.tile_row * self.tile_col <= usize::MAX
        &&& self.tile_offset() <= usize::MAX
        &&& self.row_bytes() <= usize::MAX
        &&& self.last_dim() * self.tile_col <= usize::MAX
        &&& self.row_offset() <= usize::MAX
        &&& self.tile_row * self.row_offset() <= u64::MAX
        &&& self.tiles() * self.tile_offset() <= u64::MAX
        &&& self.base_addr_byte + self.tiles() * self.tile_offset() + self.tile_row * self.row_offset()
            + self.row_bytes() + self.addr_offset <= u64::MAX
    }

    /// The addresses of the requests for tile `tile_idx`.
    pub open spec fn addrs_of(&self, tile_idx: int) -> Seq<int> {
        tile_addrs(
            self.base_addr_byte + tile_idx * self.tile_offset(),
            0,
            self.tile_row as int,
            self.row_offset(),
            self.row_bytes(),
            self.addr_offset as int,
        )
    }

    /// The tensor has an innermost axis, requests move bytes, and the bytes
    /// of a tile, of a row of it and of a row of tiles fit the machine
    /// word.
    pub open spec fn sizes_fit(&self) -> bool {
        &&& self.tensor_shape_tiled@.len() > 0
        &&& self.addr_offset > 0
        &&& self.tile_row * self.tile_col <= usize::MAX
        &&& self.tile_offset() <= usize::MAX
        &&& self.row_bytes() <= usize::MAX
        &&& self.last_dim() * self.tile_col <= usize::MAX
        &&& self.row_offset() <= usize::MAX
    }

    /// Whether tile number `tile_idx` can be addressed: the sizes fit and so
    /// does every address of the tile. The number need not be one of a tile
    /// of the tensor.
    pub open spec fn addressable(&self, tile_idx: int) -> bool {
        self.sizes_fit() && addrs_fit(self.addrs_of(tile_idx))
    }

    /// The bytes of a tile, the bytes of a row of it, and the distance
    /// between two of its rows in memory.
    pub fn sizes(&self) -> (r: Option<(usize, usize, usize)>)
        ensures
            r.is_some() == self.sizes_fit(),
            r matches Some(t) ==> t.0 == self.tile_offset() && t.1 == self.row_bytes() && t.2
                == self.row_offset(),
    {
        if self.tensor_shape_tiled.len() == 0 || self.addr_offset == 0 {
            return None;
        }
        let last = self.tensor_shape_tiled[self.tensor_shape_tiled.len() - 1];
        let rc = self.tile_row.checked_mul(self.tile_col)?;
        let tile_offset = rc.checked_mul(self.n_byte)?;
        let row_bytes = self.tile_col.checked_mul(self.n_byte)?;
        let lc = last.checked_mul(self.tile_col)?;
        let row_offset = lc.checked_mul(self.n_byte)?;
        Some((tile_offset, row_bytes, row_offset))
    }

    /// The addresses of the requests that fetch or store tile number
    /// `tile_idx`, whether the tensor has that many tiles or not.
    pub fn tile_addresses_at(&self, tile_idx: u64) -> (r: Option<Vec<u64>>)
        ensures
            r.is_some() == self.addressable(tile_idx as int),
            r matches Some(v) ==> addr_ints(v@) == self.addrs_of(tile_idx as int),
    {
        match self.sizes() {
            Some((tile_offset, row_bytes, row_offset)) => checked_tile_addresses(
                self.base_addr_byte,
                tile_idx,
                tile_offset,
                self.tile_row,
                row_bytes,
                row_offset,
                self.addr_offset,
            ),
            None => None,
        }
    }

    /// Whether the layout is well formed.
    pub fn check(&self) -> (ok: bool)
        ensures
            ok == self.wf(),
    {
        if self.tensor_shape_tiled.len() == 0 || self.addr_offset == 0 {
            return false;
        }
        let last = self.tensor_shape_tiled[self.tensor_shape_tiled.len() - 1];
        let tiles = match crate::primitives::tile::checked_shape_product(&self.tensor_shape_tiled) {
            Some(v) => v,
            None => {
                return false;
            },
        };
        let rc = match self.tile_row.checked_mul(self.tile_col) {
            Some(v) => v,
            None => {
                return false;
            },
        };
        let tile_offset = match rc.checked_mul(self.n_byte) {
            Some(v) => v,
            None => {
                return false;
            },
        };
        let row_bytes = match self.tile_col.checked_mul(self.n_byte) {
            Some(v) => v,
            None => {
                return false;
            },
        };
        let lc = match last.checked_mul(self.tile_col) {
            Some(v) => v,
            None => {
                return false;
            },
        };
        let row_offset = match lc.checked_mul(self.n_byte) {
            Some(v) => v,
            None => {
                return false;
            },
        };
        let rows_span = match (self.tile_row as u64).checked_mul(row_offset as u64) {
            Some(v) => v,
            None => {
                return false;
            },
        };
        let tiles_span = match (tiles as u64).checked_mul(tile_offset as u64) {
            Some(v) => v,
            None => {
                return false;
            },
        };
        let a = match self.base_addr_byte.checked_add(tiles_span) {
            Some(v) => v,
            None => {
                return false;
            },
        };
        let b = match a.checked_add(rows_span) {
            Some(v) => v,
            None => {
                return false;
            },
        };
        let c = match b.checked_add(row_bytes as u64) {
            Some(v) => v,
            None => {
                return false;
            },
        };
        c.checked_add(self.addr_offset).is_some()
    }

    /// The shape of the tensor in entries: the shape in tiles with its two
    /// innermost axes multiplied by the rows and the columns of a tile.
    pub open spec fn untiled(&self) -> Seq<int> {
        let s = self.tensor_shape_tiled@;
        let n = s.len() as int;
        Seq::new(
            s.len(),
            |i: int|
                if i == n - 2 {
                    self.tile_row * s[i]
                } else if i == n - 1 {
                    self.tile_col * s[i]
                } else {
                    s[i] as int
                },
        )
    }

    /// The shape of the tensor in entries, which is written beside stored
    /// values. `None` for a tensor of fewer than two axes or of more rows or
    /// columns than the machine word counts.
    pub fn untiled_shape(&self) -> (r: Option<Vec<usize>>)
        ensures
            r.is_some() <==> (self.tensor_shape_tiled@.len() >= 2 && forall|i: int|
                0 <= i < self.tensor_shape_tiled@.len() ==> #[trigger] self.untiled()[i] <= usize::MAX),
            r matches Some(v) ==> v@.len() == self.tensor_shape_tiled@.len() && forall|i: int|
                0 <= i < v@.len() ==> #[trigger] v@[i] as int == self.untiled()[i],
    {
        let n = self.tensor_shape_tiled.len();
        if n < 2 {
            return None;
        }
        let total_rows = match self.tile_row.checked_mul(self.tensor_shape_tiled[n - 2]) {
            Some(v) => v,
            None => {
                assert(self.untiled()[n - 2] > usize::MAX);
                return None;
            },
        };
        let total_cols = match self.tile_col.checked_mul(self.tensor_shape_tiled[n - 1]) {
            Some(v) => v,
            None => {
                assert(self.untiled()[n - 1] > usize::MAX);
                return None;
            },
        };
        let mut shape: Vec<usize> = Vec::with_capacity(n);
        let mut i: usize = 0;
        while i < n - 2
            invariant
                i <= n - 2,
                n == self.tensor_shape_tiled.len(),
                shape.len() == i,
                forall|k: int| 0 <= k < i ==> #[trigger] shape[k] == self.tensor_shape_tiled[k],
            decreases n - 2 - i,
        {
            shape.push(self.tensor_shape_tiled[i]);
            i += 1;
        }
        shape.push(total_rows);
        shape.push(total_cols);
        assert forall|i: int| 0 <= i < self.tensor_shape_tiled@.len() implies #[trigger] self.untiled()[i]
            <= usize::MAX by {
            assert(shape[i] as int == self.untiled()[i]);
        }
        Some(shape)
    }

    /// The addresses of the requests that fetch or store tile `tile_idx`.
    pub fn generate_tile_addresses(&self, tile_idx: u64) -> (addrs: Vec<u64>)
        requires
            self.wf(),
            tile_idx <= self.tiles(),
        ensures
            addr_ints(addrs@) == self.addrs_of(tile_idx as int),
    {
        let last = self.tensor_shape_tiled[self.tensor_shape_tiled.len() - 1];
        let tile_offset: usize = self.tile_row * self.tile_col * self.n_byte;
        let row_bytes: usize = self.tile_col * self.n_byte;
        let row_offset: usize = last * self.tile_col * self.n_byte;
        proof {
            let t = self.tile_offset();
            assert(tile_idx * t <= self.tiles() * t) by (nonlinear_arith)
                requires
                    tile_idx <= self.tiles(),
                    t >= 0,
            ;
            assert(tile_idx * t >= 0) by (nonlinear_arith)
                requires
                    tile_idx >= 0,
                    t >= 0,
            ;
        }
        let base_addr_i: u64 = self.base_addr_byte + tile_idx * tile_offset as u64;
        tile_addresses(base_addr_i, self.tile_row, row_bytes, row_offset, self.addr_offset)
    }
}

/// The sequence cut into pieces of `size` entries, the last one shorter if
/// the entries run out.
pub open spec fn chunks_of(s: Seq<u64>, size: nat) -> Seq<Seq<u64>>
    decreases s.len(),
{
    if s.len() == 0 || size == 0 {
        Seq::empty()
    } else if s.len() <= size {
        seq![s]
    } else {
        seq![s.subrange(0, size as int)] + chunks_of(s.subrange(size as int, s.len() as int), size)
    }
}

/// The pieces as sequences.
pub open spec fn chunk_views(chunks: Seq<Vec<u64>>) -> Seq<Seq<u64>> {
    Seq::new(chunks.len(), |i: int| chunks[i]@)
}

/// `itertools::Itertools::chunks` on the addresses, every chunk gathered
/// into a vector: the addresses in pieces of `size`, the last piece shorter
/// if they run out, as its documentation says. It panics for a size of `0`,
/// which the precondition leaves out.
#[verifier::external_body]
fn chunk_addrs(addrs: &Vec<u64>, size: usize) -> (chunks: Vec<Vec<u64>>)
    requires
        size != 0,
    ensures
        chunk_views(chunks@) == chunks_of(addrs@, size as nat),
{
    let chunks = addrs.iter().chunks(size);
    let pieces = (&chunks).into_iter();
    pieces.map(|chunk| chunk.cloned().collect()).collect()
}

/// The requests of one tile in the groups in which they are sent:
/// `par_dispatch` addresses per cycle, group `k` stamped `k` cycles after
/// `send_time`.
pub fn dispatch_plan(addrs: &Vec<u64>, par_dispatch: usize, send_time: u64) -> (plan: Vec<(u64, Vec<u64>)>)
    requires
        par_dispatch != 0,
        send_time + addrs.len() <= u64::MAX,
    ensures
        plan.len() == chunks_of(addrs@, par_dispatch as nat).len(),
        forall|k: int|
            0 <= k < plan.len() ==> (#[trigger] plan[k]).0 == send_time + k && plan[k].1@ == chunks_of(
                addrs@,
                par_dispatch as nat,
            )[k],
{
    let chunks = chunk_addrs(addrs, par_dispatch);
    let ghost want = chunks_of(addrs@, par_dispatch as nat);
    let ghost pieces = chunks@;
    proof {
        lemma_chunks_len(addrs@, par_dispatch as nat);
        assert(chunk_views(pieces).len() == pieces.len());
        assert forall|m: int| 0 <= m < pieces.len() implies (#[trigger] pieces[m])@ == want[m] by {
            assert(chunk_views(pieces)[m] == pieces[m]@);
        }
    }
    let mut plan: Vec<(u64, Vec<u64>)> = Vec::with_capacity(chunks.len());
    let mut k: usize = 0;
    for chunk in it: chunks.into_iter()
        invariant
            it.seq() == pieces,
            k == it.index(),
            pieces.len() == want.len(),
            want.len() <= addrs.len(),
            send_time + addrs.len() <= u64::MAX,
            forall|m: int| 0 <= m < pieces.len() ==> (#[trigger] pieces[m])@ == want[m],
            plan.len() == k,
            forall|q: int| 0 <= q < plan.len() ==> (#[trigger] plan[q]).0 == send_time + q && plan[q].1@ == want[q],
    {
        assert(chunk == pieces[k as int]);
        plan.push((send_time + k as u64, chunk));
        k += 1;
    }
    plan
}

/// There are no more pieces than entries.
pub proof fn lemma_chunks_len(s: Seq<u64>, size: nat)
    ensures
        chunks_of(s, size).len() <= s.len(),
    decreases s.len(),
{
    if s.len() > 0 && size > 0 && s.len() > size {
        lemma_chunks_len(s.subrange(size as int, s.len() as int), size);
    }
}

} // verus!
