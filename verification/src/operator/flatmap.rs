use vstd::prelude::*;

use super::ProtocolError;
use crate::memory::metadata_gen::{make_number_tile, number_tile};
use crate::primitives::elem::{Bufferizable, Elem, StopType};
use crate::primitives::select::MultiHotN;
use crate::primitives::tile::{Tile, TileView};

verus! {

/// The number of tiles that a tile is cut into: one per row or per column,
/// and with the filter only the rows that are data, if there are any.
pub open spec fn retile_count<T>(data: TileView<T>, split_row: bool, filter_mask: bool) -> nat {
    let num = if split_row {
        data.shape[0]
    } else {
        data.shape[1]
    };
    if filter_mask && 1 <= data.offset <= num {
        data.offset as nat
    } else {
        num as nat
    }
}

/// Row or column `idx` of the tile as a tile of one row. It is data if it
/// lies before the offset of the tile.
pub open spec fn retile_tile<T>(data: TileView<T>, split_row: bool, idx: int) -> TileView<T> {
    let rows = data.shape[0] as int;
    let cols = data.shape[1] as int;
    let len = if split_row {
        cols
    } else {
        rows
    };
    TileView {
        shape: seq![1usize, len as usize],
        bytes_per_elem: data.bytes_per_elem,
        read_from_mu: data.read_from_mu,
        underlying: match data.underlying {
            Some(d) => Some(
                Seq::new(
                    len as nat,
                    |k: int|
                        if split_row {
                            d[idx * cols + k]
                        } else {
                            d[k * cols + idx]
                        },
                ),
            ),
            None => None,
        },
        offset: if idx + 1 <= data.offset {
            1
        } else {
            0
        },
    }
}

/// The stop marker of piece `idx` of `count`: the marker of the tile on the
/// last piece, none on the others.
pub open spec fn retile_stop(stop_level: Option<StopType>, idx: int, count: nat) -> Option<StopType> {
    if idx + 1 == count {
        stop_level
    } else {
        None
    }
}

/// Cuts every tile of a stream into its rows or its columns and sends them
/// as tiles of one row.
pub struct RetileStreamify {
    split_row: bool,
    filter_mask: bool,
}

impl RetileStreamify {
    /// Whether tiles are cut into rows; else into columns.
    pub closed spec fn by_row(&self) -> bool {
        self.split_row
    }

    /// Whether rows that are padding are left out.
    pub closed spec fn filters(&self) -> bool {
        self.filter_mask
    }

    pub fn new(split_row: bool, filter_mask: bool) -> (r: Self)
        ensures
            r.by_row() == split_row,
            r.filters() == filter_mask,
    {
        RetileStreamify { split_row, filter_mask }
    }

    /// The stream sent for one tile that came under the marker
    /// `stop_level`.
    pub fn retile<T: Copy>(&self, data: &Tile<T>, stop_level: Option<StopType>) -> (out: Vec<Elem<Tile<T>>>)
        requires
            data@.wf(),
        ensures
            out.len() == retile_count(data@, self.by_row(), self.filters()),
            forall|i: int|
                0 <= i < out.len() ==> (#[trigger] out[i]).value()@ == retile_tile(data@, self.by_row(), i)
                    && out[i].stop() == retile_stop(stop_level, i, out.len() as nat),
    {
        let rows = data.shape[0];
        let cols = data.shape[1];
        let num = if self.split_row {
            rows
        } else {
            cols
        };
        let len = if self.split_row {
            cols
        } else {
            rows
        };
        let count = if self.filter_mask && 1 <= data.offset && data.offset <= num {
            data.offset
        } else {
            num
        };
        let mut out: Vec<Elem<Tile<T>>> = Vec::with_capacity(count);
        let mut idx: usize = 0;
        while idx < count
            invariant
                idx <= count,
                count <= num,
                data@.wf(),
                rows == data.shape[0],
                cols == data.shape[1],
                num == if self.split_row { rows } else { cols },
                len == if self.split_row { cols } else { rows },
                count == retile_count(data@, self.by_row(), self.filters()),
                out.len() == idx,
                forall|i: int|
                    0 <= i < idx ==> (#[trigger] out[i]).value()@ == retile_tile(data@, self.by_row(), i)
                        && out[i].stop() == retile_stop(stop_level, i, count as nat),
            decreases count - idx,
        {
            let underlying: Option<Vec<T>> = match &data.underlying {
                Some(d) => {
                    let mut piece: Vec<T> = Vec::with_capacity(len);
                    let mut k: usize = 0;
                    while k < len
                        invariant
                            k <= len,
                            idx < num,
                            d.len() == rows * cols,
                            num == if self.split_row { rows } else { cols },
                            len == if self.split_row { cols } else { rows },
                            piece.len() == k,
                            forall|m: int|
                                0 <= m < k ==> piece[m] == if self.split_row {
                                    d[idx * cols + m]
                                } else {
                                    d[m * cols + idx]
                                },
                        decreases len - k,
                    {
                        let pos = if self.split_row {
                            proof {
                                assert(idx * cols + k < rows * cols) by (nonlinear_arith)
                                    requires
                                        idx < rows,
                                        k < cols,
                                ;
                            }
                            idx * cols + k
                        } else {
                            proof {
                                assert(k * cols + idx < rows * cols) by (nonlinear_arith)
                                    requires
                                        k < rows,
                                        idx < cols,
                                ;
                            }
                            k * cols + idx
                        };
                        piece.push(d[pos]);
                        k += 1;
                    }
                    Some(piece)
                },
                None => None,
            };
            let mut shape: Vec<usize> = Vec::with_capacity(2);
            shape.push(1);
            shape.push(len);
            assert(shape@ =~= seq![1usize, len]);
            let out_data = Tile {
                shape,
                bytes_per_elem: data.bytes_per_elem,
                read_from_mu: data.read_from_mu,
                underlying,
                offset: if idx + 1 <= data.offset {
                    1
                } else {
                    0
                },
            };
            proof {
                let want = retile_tile(data@, self.by_row(), idx as int);
                assert(out_data@.shape == want.shape);
                match out_data@.underlying {
                    Some(p) => {
                        assert(p =~= want.underlying.unwrap());
                    },
                    None => {},
                }
                assert(out_data@ == want);
            }
            let marker = if idx + 1 == count {
                stop_level
            } else {
                None
            };
            let ghost prev = out@;
            out.push(Elem::from_stop(out_data, marker));
            assert forall|i: int| 0 <= i < idx implies out[i] == prev[i] by {}
            idx += 1;
        }
        out
    }
}

/// The stream of `n` addresses from `first` on, each in a tile of one
/// entry: all under a stop of level `inner` except the last, which is under
/// `last`.
pub open spec fn addr_run_ok(out: Seq<Elem<Tile<u64>>>, first: int, n: nat, inner: Option<StopType>, last: Option<
    StopType,
>) -> bool {
    &&& out.len() == n
    &&& forall|i: int|
        0 <= i < n ==> (#[trigger] out[i]).value()@ == number_tile((first + i) as u64, false) && out[i].stop()
            == if i + 1 == n {
            last
        } else {
            inner
        }
}

/// Builds the stream of `n` addresses from `first` on.
fn addr_run(first: u64, n: u64, inner: Option<StopType>, last: Option<StopType>) -> (out: Vec<Elem<Tile<u64>>>)
    requires
        first + n <= u64::MAX,
        n <= usize::MAX,
    ensures
        addr_run_ok(out@, first as int, n as nat, inner, last),
{
    let mut out: Vec<Elem<Tile<u64>>> = Vec::new();
    let mut i: u64 = 0;
    while i < n
        invariant
            i <= n,
            first + n <= u64::MAX,
            out.len() == i,
            forall|k: int|
                0 <= k < i ==> (#[trigger] out[k]).value()@ == number_tile((first + k) as u64, false)
                    && out[k].stop() == if k + 1 == n {
                    last
                } else {
                    inner
                },
        decreases n - i,
    {
        let marker = if i + 1 == n {
            last
        } else {
            inner
        };
        let ghost prev = out@;
        out.push(Elem::from_stop(make_number_tile(first + i, false), marker));
        assert forall|k: int| 0 <= k < i implies out[k] == prev[k] by {}
        i += 1;
    }
    out
}

/// Turns every pick of an expert into the addresses of the expert's tiles.
pub struct ExpertAddrGen {
    num_tile_per_expert: u64,
    expert_addr_base: u64,
}

impl ExpertAddrGen {
    /// The number of tiles of one expert.
    pub closed spec fn tiles(&self) -> u64 {
        self.num_tile_per_expert
    }

    /// The address of the first tile of the first expert.
    pub closed spec fn base(&self) -> u64 {
        self.expert_addr_base
    }

    pub fn new(num_tile_per_expert: u64, expert_addr_base: u64) -> (g: Self)
        ensures
            g.tiles() == num_tile_per_expert,
            g.base() == expert_addr_base,
    {
        ExpertAddrGen { num_tile_per_expert, expert_addr_base }
    }

    /// The stream sent for one selector that picks the experts
    /// `expert_idx_list` and came under the marker `stop`: the addresses of
    /// the tiles of the one expert picked, as a group of rank one that ends
    /// a group of rank two. The selector stream has rank zero, and every
    /// selector picks one expert.
    pub fn generate(&self, expert_idx_list: &Vec<usize>, stop: Option<StopType>) -> (r: Result<
        Vec<Elem<Tile<u64>>>,
        ProtocolError,
    >)
        requires
            expert_idx_list.len() == 1 ==> self.base() + (expert_idx_list[0] + 1) * self.tiles() <= u64::MAX
                && self.tiles() <= usize::MAX,
        ensures
            match r {
                Err(e) => e == if stop is Some {
                    ProtocolError::UnexpectedStop
                } else {
                    ProtocolError::BadConfig
                } && (stop is Some || expert_idx_list.len() != 1),
                Ok(out) => stop is None && expert_idx_list.len() == 1 && addr_run_ok(
                    out@,
                    self.base() + expert_idx_list[0] * self.tiles(),
                    self.tiles() as nat,
                    Some(1u32),
                    Some(2u32),
                ),
            },
    {
        if stop.is_some() {
            return Err(ProtocolError::UnexpectedStop);
        }
        if expert_idx_list.len() != 1 {
            return Err(ProtocolError::BadConfig);
        }
        let idx = expert_idx_list[0] as u64;
        proof {
            let t = self.tiles() as int;
            assert((idx + 1) * t == idx * t + t) by (nonlinear_arith);
            assert(idx * t >= 0) by (nonlinear_arith)
                requires
                    idx >= 0,
                    t >= 0,
            ;
        }
        let expert_addr: u64 = self.expert_addr_base + idx * self.num_tile_per_expert;
        Ok(addr_run(expert_addr, self.num_tile_per_expert, Some(1), Some(2)))
    }
}

/// The stop level that closes the group sent for an input under the marker
/// `stop`: one above the input's.
pub open spec fn group_close(stop: Option<StopType>) -> Option<StopType> {
    match stop {
        None => Some(1u32),
        Some(s) => Some((s + 1) as u32),
    }
}

/// Turns every pair of a request number and a sequence length into the
/// addresses of the cached entries of the request.
pub struct CacheReadAddrGen {
    offset_per_idx: u64,
}

impl CacheReadAddrGen {
    /// The distance between the addresses of two requests.
    pub closed spec fn offset(&self) -> u64 {
        self.offset_per_idx
    }

    pub fn new(offset_per_idx: u64) -> (g: Self)
        ensures
            g.offset() == offset_per_idx,
    {
        CacheReadAddrGen { offset_per_idx }
    }

    /// The stream sent for the request `idx_val` of sequence length
    /// `seq_len_val`, the two having come under the markers `idx_stop` and
    /// `seq_len_stop`: the `seq_len_val` addresses from `idx_val` times the
    /// offset on, address `k` stamped `k` cycles after now, as a group that
    /// ends one level above the inputs.
    pub fn generate(&self, idx_val: u64, seq_len_val: u64, idx_stop: Option<StopType>, seq_len_stop: Option<StopType>) -> (r:
        Result<Vec<Elem<Tile<u64>>>, ProtocolError>)
        requires
            idx_val * self.offset() + seq_len_val <= u64::MAX,
            seq_len_val <= usize::MAX,
            idx_stop matches Some(s) ==> s < u32::MAX,
        ensures
            match r {
                Err(e) => if idx_stop != seq_len_stop {
                    e == ProtocolError::ShapeMismatch
                } else {
                    e == ProtocolError::BadConfig && seq_len_val == 0
                },
                Ok(out) => idx_stop == seq_len_stop && seq_len_val > 0 && addr_run_ok(
                    out@,
                    idx_val * self.offset(),
                    seq_len_val as nat,
                    None,
                    group_close(idx_stop),
                ),
            },
    {
        if idx_stop != seq_len_stop {
            return Err(ProtocolError::ShapeMismatch);
        }
        if seq_len_val == 0 {
            return Err(ProtocolError::BadConfig);
        }
        proof {
            assert(idx_val * self.offset() >= 0) by (nonlinear_arith)
                requires
                    idx_val >= 0,
                    self.offset() >= 0,
            ;
        }
        let last: StopType = match idx_stop {
            None => 1,
            Some(s) => s + 1,
        };
        Ok(addr_run(idx_val * self.offset_per_idx, seq_len_val, None, Some(last)))
    }
}

/// Marks the last tile of every sequence: for a sequence of length `n`,
/// `n - 1` selectors that pick output one and a last one that picks output
/// zero.
pub struct FilterLastTile {}

impl FilterLastTile {
    pub fn new() -> (f: Self) {
        FilterLastTile {  }
    }

    /// The stream sent for a sequence of length `seq_len_val` that came
    /// under the marker `stop`.
    pub fn generate(&self, seq_len_val: u64, stop: Option<StopType>) -> (r: Result<Vec<Elem<MultiHotN>>, ProtocolError>)
        requires
            stop matches Some(s) ==> s < u32::MAX,
        ensures
            r is Err <==> seq_len_val == 0,
            r matches Err(e) ==> e == ProtocolError::BadConfig,
            r matches Ok(out) ==> {
                &&& out.len() == seq_len_val
                &&& forall|i: int|
                    0 <= i < out.len() ==> (#[trigger] out[i]).value()@ == if i + 1 == seq_len_val {
                        seq![true, false]
                    } else {
                        seq![false, true]
                    } && out[i].stop() == if i + 1 == seq_len_val {
                        group_close(stop)
                    } else {
                        None
                    } && !out[i].value().from_mu() && !out[i].value().spec_read_from_mu()
            },
    {
        if seq_len_val == 0 {
            return Err(ProtocolError::BadConfig);
        }
        let last: StopType = match stop {
            None => 1,
            Some(s) => s + 1,
        };
        let mut out: Vec<Elem<MultiHotN>> = Vec::new();
        let mut i: u64 = 0;
        while i < seq_len_val
            invariant
                i <= seq_len_val,
                Some(last) == group_close(stop),
                out.len() == i,
                forall|k: int|
                    0 <= k < i ==> (#[trigger] out[k]).value()@ == if k + 1 == seq_len_val {
                        seq![true, false]
                    } else {
                        seq![false, true]
                    } && out[k].stop() == if k + 1 == seq_len_val {
                        group_close(stop)
                    } else {
                        None
                    } && !out[k].value().from_mu() && !out[k].value().spec_read_from_mu(),
            decreases seq_len_val - i,
        {
            let is_last = i + 1 == seq_len_val;
            let mut mask: Vec<bool> = Vec::with_capacity(2);
            mask.push(is_last);
            mask.push(!is_last);
            assert(mask@ =~= if is_last {
                seq![true, false]
            } else {
                seq![false, true]
            });
            let marker = if is_last {
                Some(last)
            } else {
                None
            };
            let ghost prev = out@;
            out.push(Elem::from_stop(MultiHotN::new(mask, false), marker));
            assert forall|k: int| 0 <= k < i implies out[k] == prev[k] by {}
            i += 1;
        }
        Ok(out)
    }
}

} // verus!
