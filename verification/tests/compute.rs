use step_perf::functions::{accum_fn, map_accum_fn, map_fn};
use step_perf::memory::metadata_gen::{make_number_tile, read_number_tile, MetadataGen};
use step_perf::memory::{load_cycles, transfer_cycles, PMU_BW};
use step_perf::operator::accum::{Accum, AccumAction, AccumConfig};
use step_perf::operator::flatmap::{CacheReadAddrGen, ExpertAddrGen, FilterLastTile, RetileStreamify};
use step_perf::operator::map::{
    check_pair_closed, check_pair_stop, check_pairing, pair_closed, pair_stop, roofline, BinaryMap, UnaryMap,
    UnaryMapConfig,
};
use step_perf::operator::map_accum::BinaryMapAccum;
use step_perf::operator::ProtocolError;
use step_perf::primitives::elem::{Bufferizable, Elem};
use step_perf::primitives::select::{MultiHotN, SelectAdapter};
use step_perf::primitives::tile::Tile;
use step_perf::utils::cast::to_u64_vec;

fn tile_of(rows: usize, cols: usize, data: Vec<i32>, read_from_mu: bool) -> Tile<i32> {
    Tile::new(rows, cols, data, 4, read_from_mu).unwrap()
}

/// The entries of several tiles of the same number of rows side by side.
fn concat_cols(tiles: &[&Tile<i32>]) -> Tile<i32> {
    let rows = tiles[0].shape[0];
    let mut data = Vec::new();
    for r in 0..rows {
        for t in tiles {
            let cols = t.shape[1];
            data.extend_from_slice(&t.underlying.as_ref().unwrap()[r * cols..(r + 1) * cols]);
        }
    }
    let cols = tiles.iter().map(|t| t.shape[1]).sum();
    tile_of(rows, cols, data, true)
}

/// The entries of several tiles of the same number of columns one below
/// the other.
fn concat_rows(tiles: &[&Tile<i32>]) -> Tile<i32> {
    let cols = tiles[0].shape[1];
    let mut data = Vec::new();
    for t in tiles {
        data.extend_from_slice(t.underlying.as_ref().unwrap());
    }
    let rows = tiles.iter().map(|t| t.shape[0]).sum();
    tile_of(rows, cols, data, true)
}

fn grid(arrays: &[Tile<i32>]) -> Vec<Elem<Tile<i32>>> {
    let mut in_stream_data = Vec::new();
    for (i, tile) in arrays.iter().enumerate() {
        // Add ValStop at indices 2, 5, 8 (end of each row in 3x3 grid)
        if i % 3 == 2 {
            if i == 8 {
                in_stream_data.push(Elem::ValStop(tile.clone(), 2));
            } else {
                in_stream_data.push(Elem::ValStop(tile.clone(), 1));
            }
        } else {
            in_stream_data.push(Elem::Val(tile.clone()));
        }
    }
    in_stream_data
}

#[test]
fn accum_test_retile_col() {
    // Step 1: Create 9 different arrays with shape 2x2
    let arrays: Vec<Tile<i32>> = (0..9).map(|i| tile_of(2, 2, vec![i as i32; 4], true)).collect();
    let read_from_mu = true;
    // Step 2: Create a 3x3 rank-2 data stream from these arrays
    let in_stream_data = grid(&arrays);
    // Step 3: Create a ground truth for the output stream
    let mut ground_truth_data = Vec::new();
    for i in 0..3 {
        let concatenated = concat_cols(&[&arrays[i * 3], &arrays[i * 3 + 1], &arrays[i * 3 + 2]]);
        ground_truth_data.push(if i == 2 { Elem::ValStop(concatenated, 1) } else { Elem::Val(concatenated) });
    }
    let accum = Accum::new(1, AccumConfig { compute_bw: 1000, write_back_mu: true });
    let (out, cycles) = accum.run(
        &in_stream_data,
        |t: &Tile<i32>, acc: &Tile<i32>, bw, wb| accum_fn::retile_col(t, acc, bw, wb),
        || Tile::new_empty([2, 0], 4, read_from_mu),
    );
    assert_eq!(out, ground_truth_data);
    // Sixteen bytes are loaded in one cycle; the empty accumulator costs
    // nothing to store.
    assert_eq!(cycles, vec![1; 9]);
}

#[test]
fn accum_test_retile_row() {
    // [1,3,3] => [1,3]
    // [1,4] tile => [3,4] tile
    let arrays: Vec<Tile<i32>> = (0..9).map(|i| tile_of(1, 4, vec![i as i32; 4], true)).collect();
    let read_from_mu = true;
    let in_stream_data = grid(&arrays);
    let mut ground_truth_data = Vec::new();
    for i in 0..3 {
        let concatenated = concat_rows(&[&arrays[i * 3], &arrays[i * 3 + 1], &arrays[i * 3 + 2]]);
        ground_truth_data.push(if i == 2 { Elem::ValStop(concatenated, 1) } else { Elem::Val(concatenated) });
    }
    let accum = Accum::new(1, AccumConfig { compute_bw: 1000, write_back_mu: true });
    let (out, _) = accum.run(
        &in_stream_data,
        |t: &Tile<i32>, acc: &Tile<i32>, bw, wb| accum_fn::retile_row(t, acc, bw, wb),
        || Tile::new_empty([0, 4], 4, read_from_mu),
    );
    assert_eq!(out, ground_truth_data);
}

#[test]
fn accum_actions_by_level() {
    let accum = Accum::new(2, AccumConfig { compute_bw: 1, write_back_mu: true });
    assert_eq!(accum.action(None), AccumAction::Fold);
    assert_eq!(accum.action(Some(1)), AccumAction::Fold);
    assert_eq!(accum.action(Some(2)), AccumAction::Emit(None));
    assert_eq!(accum.action(Some(5)), AccumAction::Emit(Some(3)));
    let data = Tile::<i32>::new_blank(vec![16, 16], 2, true);
    let fresh = Tile::<i32>::new_blank(vec![32, 32], 2, true);
    // Load 8, compute 5, store 32 when the accumulator is sent.
    assert_eq!(accum.cycles(AccumAction::Fold, &data, 5, &fresh), 8);
    assert_eq!(accum.cycles(AccumAction::Emit(None), &data, 5, &fresh), 32);
    assert_eq!(accum.cycles(AccumAction::Fold, &data, 50, &fresh), 50);
    let m = BinaryMapAccum::new(1, 1022, false);
    assert_eq!(m.action(None, None), Ok(AccumAction::Fold));
    assert_eq!(m.action(Some(1), Some(1)), Ok(AccumAction::Emit(None)));
    assert_eq!(m.action(Some(3), Some(3)), Ok(AccumAction::Emit(Some(2))));
    assert_eq!(m.action(Some(1), Some(2)), Err(ProtocolError::ShapeMismatch));
    assert_eq!(m.action(Some(1), None), Err(ProtocolError::ShapeMismatch));
    assert_eq!(m.cycles(AccumAction::Emit(None), &data, &data, 5, &fresh), 16);
}

#[test]
fn map_accum_reduces_along_the_inner_axis() {
    // Two rows of two pairs each: every row is reduced to the sum of the
    // products of its pairs.
    let t = |v: i32| tile_of(1, 1, vec![v], true);
    let in1 = vec![Elem::Val(t(1)), Elem::ValStop(t(2), 1), Elem::Val(t(3)), Elem::ValStop(t(4), 2)];
    let in2 = vec![Elem::Val(t(10)), Elem::ValStop(t(20), 1), Elem::Val(t(30)), Elem::ValStop(t(40), 2)];
    let unit = BinaryMapAccum::new(1, 2, true);
    let f = |a: &Tile<i32>, b: &Tile<i32>, acc: &Tile<i32>, bw: u64, wb: bool| {
        let (c, p) = map_fn::mul(a, b, bw, wb, |x: i32, y: i32| x * y);
        let (_, s) = accum_fn::add(&p, acc, bw, wb, |x: i32, y: i32| x + y);
        (c, s)
    };
    let init = || Tile::new_zero([1, 1], 0i32, 4, true);
    let (out, cycles) = unit.run(&in1, &in2, f, init).unwrap();
    assert_eq!(out.len(), 2);
    assert_eq!(out[0].stop_marker(), None);
    assert_eq!(out[0].data().underlying, Some(vec![1 * 10 + 2 * 20]));
    assert_eq!(out[1].stop_marker(), Some(1));
    assert_eq!(out[1].data().underlying, Some(vec![3 * 30 + 4 * 40]));
    // Two loads of four bytes each, one cycle each.
    assert_eq!(cycles, vec![2; 4]);
    let short = vec![Elem::Val(t(1))];
    assert_eq!(unit.run(&in1, &short, f, init).err(), Some(ProtocolError::ClosedEarly));
    assert_eq!(unit.run(&short, &vec![], f, init).err(), Some(ProtocolError::ClosedEarly));
    let stopped = vec![Elem::ValStop(t(1), 1)];
    assert_eq!(unit.run(&short, &stopped, f, init).err(), Some(ProtocolError::ShapeMismatch));
}

#[test]
fn binary_map_mul() {
    // Step 1: Create 9 different arrays with shape 2x2
    let in1: Vec<Tile<i32>> = (0..9).map(|i| tile_of(2, 2, vec![i as i32; 4], true)).collect();
    let in2: Vec<Tile<i32>> = (0..9).map(|i| tile_of(1, 1, vec![i as i32; 1], true)).collect();
    // Step 2: Create input data for the in1 and in2 streams
    let in1_stream_data: Vec<Elem<Tile<i32>>> = in1.iter().cloned().map(Elem::Val).collect();
    let in2_stream_data: Vec<Elem<Tile<i32>>> = in2.iter().cloned().map(Elem::Val).collect();
    // Step 3: Create ground truth data for the expected output
    let expected_out_stream_data: Vec<Elem<Tile<i32>>> = in1
        .iter()
        .zip(in2.iter())
        .map(|(a, b)| Elem::Val(map_fn::mul(a, b, 1024, true, |x: i32, y: i32| x * y).1))
        .collect();
    let map = BinaryMap::new(1024, true);
    let (out, cycles) = map
        .run(&in1_stream_data, &in2_stream_data, |a: &Tile<i32>, b: &Tile<i32>, bw, wb| {
            map_fn::mul(a, b, bw, wb, |x: i32, y: i32| x * y)
        })
        .unwrap();
    assert_eq!(out, expected_out_stream_data);
    for (k, e) in out.iter().enumerate() {
        assert_eq!(e.data().underlying, Some(vec![(k * k) as i32; 4]));
        assert_eq!(e.data().shape, vec![2, 2]);
        assert!(e.data().read_from_mu);
    }
    // Load of 16 and 4 bytes, four operations at 1024 per cycle, store of 16
    // bytes: the loads decide.
    assert_eq!(cycles, vec![2; 9]);
}

#[test]
fn map_pairs_have_to_agree() {
    assert_eq!(pair_stop(None, None), Ok(None));
    assert_eq!(pair_stop(Some(2), Some(2)), Ok(Some(2)));
    assert_eq!(check_pair_stop(Some(2), Some(2)), None);
    assert_eq!(check_pair_stop(None, None), None);
    assert_eq!(check_pair_stop(Some(2), Some(1)), Some(ProtocolError::ShapeMismatch));
    assert_eq!(check_pair_stop(None, Some(1)), Some(ProtocolError::ShapeMismatch));
    assert_eq!(check_pair_stop(Some(1), None), Some(ProtocolError::ShapeMismatch));
    assert_eq!(pair_closed(true, true), Ok(true));
    assert_eq!(pair_closed(false, false), Ok(false));
    assert_eq!(check_pair_closed(true, true), None);
    assert_eq!(check_pair_closed(false, false), None);
    assert_eq!(check_pair_closed(true, false), Some(ProtocolError::ClosedEarly));
    assert_eq!(check_pair_closed(false, true), Some(ProtocolError::ClosedEarly));
    let map = BinaryMap::new(8, false);
    let one = vec![Elem::Val(tile_of(1, 1, vec![1], false))];
    let stopped = vec![Elem::ValStop(tile_of(1, 1, vec![1], false), 1)];
    let f = |a: &Tile<i32>, b: &Tile<i32>, bw: u64, wb: bool| map_fn::add(a, b, bw, wb, |x: i32, y: i32| x + y);
    // Streams that a map is not run on: stop markers that disagree, and
    // one stream that ends before the other.
    assert_eq!(check_pairing(&one, &stopped), Some(ProtocolError::ShapeMismatch));
    assert_eq!(check_pairing(&one, &Vec::<Elem<Tile<i32>>>::new()), Some(ProtocolError::ClosedEarly));
    let longer = vec![stopped[0].clone(), one[0].clone()];
    assert_eq!(check_pairing(&stopped, &longer), Some(ProtocolError::ClosedEarly));
    // The first fault is the one that is told.
    let later = vec![one[0].clone(), one[0].clone()];
    assert_eq!(check_pairing(&longer, &later), Some(ProtocolError::ShapeMismatch));
    assert_eq!(check_pairing(&stopped, &stopped), None);
    assert_eq!(check_pairing(&Vec::<Elem<Tile<i32>>>::new(), &Vec::<Elem<Tile<i32>>>::new()), None);
    let (out, cycles) = map.run(&stopped, &stopped, f).unwrap();
    assert_eq!(out, vec![Elem::ValStop(tile_of(1, 1, vec![2], false), 1)]);
    assert_eq!(cycles, vec![1]);
}

#[test]
fn roofline_is_the_largest_cost() {
    assert_eq!(roofline(3, 7, 5), 7);
    assert_eq!(roofline(9, 7, 5), 9);
    assert_eq!(roofline(3, 7, 50), 50);
    assert_eq!(roofline(0, 0, 0), 0);
    assert_eq!(PMU_BW, 64);
    let tile = Tile::<i32>::new_blank(vec![16, 16], 2, true);
    assert_eq!(tile.size_in_bytes(), 512);
    assert_eq!(transfer_cycles(&tile), 8);
    assert_eq!(load_cycles(&tile), 8);
    assert_eq!(load_cycles(&tile.clone_with_updated_read_from_mu(false)), 0);
    let odd = Tile::<i32>::new_blank(vec![1, 65], 1, true);
    assert_eq!(transfer_cycles(&odd), 2);
    // Accounting entries of four bytes as two halves the cycles.
    let full = Tile::<i32>::new_blank(vec![16, 16], 4, true);
    assert_eq!(load_cycles(&full), 2 * load_cycles(&tile));
    let unary = UnaryMap::new(UnaryMapConfig { compute_bw: 64, write_back_mu: true });
    let (out, cycles) = unary.run(&vec![Elem::ValStop(tile.clone(), 2)], |t: &Tile<i32>, bw, wb| {
        map_fn::exp(t, bw, wb, |x: i32| x)
    });
    assert_eq!(out[0].stop_level(), 2);
    // 256 entries at four operations each and 64 per cycle.
    assert_eq!(cycles, vec![16]);
    assert_eq!(unary.cycles(&tile, 3, &tile), 8);
}

#[test]
fn test_row_wise_sum() {
    let arr: Vec<f32> = (0..3).flat_map(|i| (0..4).map(move |j| i as f32 + j as f32)).collect();
    println!("input arr: {:?}", arr);
    let sums: Vec<f32> = arr.chunks(4).map(|row| row.iter().sum()).collect();
    let in_data = Tile::new_padded(3, 4, arr, 4, false, 3).unwrap();
    let (flop_count, out_data) = map_fn::row_wise_sum(&in_data, 6, false, Some(sums));

    println!("output arr: {:?}", out_data.underlying.as_ref().unwrap());
    assert_eq!(flop_count, 2);
    assert_eq!(out_data.shape, vec![3, 1]);
    assert_eq!(out_data.underlying, Some(vec![6.0, 10.0, 14.0]));
    assert_eq!(out_data.offset, 3);
}

#[test]
fn test_row_wise_append() {
    let arr: Vec<f32> =
        (0..6).flat_map(|i| (0..4).map(move |j| if i < 3 { i as f32 + j as f32 } else { 0.0 })).collect();
    println!("input arr: {:?}", arr);
    let in_data = Tile::new_padded(6, 4, arr, 4, false, 3).unwrap();
    let arr_to_append: Vec<f32> = (0..4).map(|j| 3 as f32 + j as f32).collect();
    let data_to_append = Tile::new_padded(1, 4, arr_to_append, 4, false, 1).unwrap();
    println!("data_to_append: {:?}", data_to_append.underlying.as_ref().unwrap());

    let (flop_count, out_data) = map_fn::row_wise_append(&in_data, &data_to_append, false);
    println!("output arr: {:?}", out_data.underlying.as_ref().unwrap());
    assert_eq!(out_data.offset, 4);
    assert_eq!(flop_count, 1);
    let got = out_data.underlying.unwrap();
    assert_eq!(got[12..16], [3.0, 4.0, 5.0, 6.0]);
    assert_eq!(got[0..4], [0.0, 1.0, 2.0, 3.0]);
    assert_eq!(got[16..24], [0.0; 8]);
}

#[test]
fn elementwise_functions() {
    let a = tile_of(2, 3, vec![1, 2, 3, 4, 5, 6], false);
    let row = Tile::new_padded(1, 3, vec![10, 20, 30], 4, false, 1).unwrap();
    let col = tile_of(2, 1, vec![2, 3], false);
    let (c, t) = map_fn::add(&a, &row, 4, true, |x: i32, y: i32| x + y);
    assert_eq!(c, 2);
    assert_eq!(t.underlying, Some(vec![11, 22, 33, 14, 25, 36]));
    assert_eq!((t.shape.clone(), t.offset, t.read_from_mu, t.bytes_per_elem), (vec![2, 3], 2, true, 4));
    let (_, t) = map_fn::mul(&a, &col, 4, false, |x: i32, y: i32| x * y);
    assert_eq!(t.underlying, Some(vec![2, 4, 6, 12, 15, 18]));
    let (c, t) = map_fn::div(&a, &a, 7, false, |x: i32, y: i32| x / y);
    assert_eq!(c, 1);
    assert_eq!(t.underlying, Some(vec![1; 6]));
    // Without values only the shape and the cycles are computed.
    let blank = Tile::<i32>::new_blank(vec![2, 3], 4, false);
    let (c, t) = map_fn::mul(&blank, &a, 1, false, |x: i32, y: i32| x * y);
    assert_eq!(c, 6);
    assert_eq!(t.underlying, None);
    // The accumulating forms mark every row as data.
    let (_, t) = accum_fn::add(&row, &a, 4, false, |x: i32, y: i32| x + y);
    assert_eq!(t.offset, 2);
    let (_, t) = accum_fn::mul(&a, &col, 4, false, |x: i32, y: i32| x * y);
    assert_eq!(t.underlying, Some(vec![2, 4, 6, 12, 15, 18]));
    let (c, t) = map_fn::silu(&a, 8, false, |x: i32| x + 1);
    assert_eq!(c, 6);
    assert_eq!(t.underlying, Some(vec![2, 3, 4, 5, 6, 7]));
}

#[test]
fn matmul_cycles_and_shapes() {
    // Input[B=32, H=64] x W[H, H], tiles of 16 rows, the whole reduction
    // axis and 32 columns, at 1022 operations per cycle.
    let in1 = Tile::<i32>::new_blank(vec![16, 64], 4, true);
    let w = Tile::<i32>::new_blank(vec![64, 32], 4, true);
    let (cycles, out) = map_fn::matmul(&in1, &w, 1022, true, false, None);
    assert_eq!(cycles, (2 * 16 * 64 * 32 + 1021) / 1022);
    assert_eq!(cycles, 65);
    assert_eq!(out.shape, vec![16, 32]);
    assert!(out.read_from_mu);
    let map = BinaryMap::new(1022, true);
    // Loads of 4096 and 8192 bytes, the product, the store of 2048 bytes.
    assert_eq!(map.cycles(&in1, &w, cycles, &out), 64 + 128);
    let wt = Tile::<i32>::new_blank(vec![32, 64], 4, true);
    let (c2, out2) = map_fn::matmul(&in1, &wt, 1022, false, true, None);
    assert_eq!((c2, out2.shape.clone()), (65, vec![16, 32]));
    let acc = Tile::<i32>::new_blank(vec![16, 32], 4, true);
    let (c3, out3) = map_accum_fn::matmul(&in1, &w, &acc, 1022, false, false, None);
    assert_eq!((c3, out3.shape.clone(), out3.offset), (65, vec![16, 32], 16));
    let empty = Tile::<i32>::new_empty([0, 0], 4, true);
    assert!(!map_accum_fn::adds_to_accumulator(&empty));
    assert!(map_accum_fn::adds_to_accumulator(&acc));
    let (c4, _) = map_accum_fn::dyn_matmul(&in1, &w, &empty, 1022, false, false, None);
    assert_eq!(c4, 65);
    // With values, the product is what the caller computed.
    let a = tile_of(1, 2, vec![1, 2], false);
    let b = tile_of(2, 1, vec![3, 4], false);
    let (c, t) = map_fn::matmul(&a, &b, 2, false, false, Some(vec![11]));
    assert_eq!((c, t.underlying.clone(), t.shape.clone()), (2, Some(vec![11]), vec![1, 1]));
}

#[test]
fn small_tile_functions() {
    let data = tile_of(2, 2, vec![1, 2, 3, 4], true);
    let (c, t) = map_fn::set_offset(&data, &make_number_tile(1, false), false).unwrap();
    assert_eq!((c, t.offset, t.underlying.clone()), (1, 1, Some(vec![1, 2, 3, 4])));
    assert!(map_fn::set_offset(&data, &Tile::<u64>::new_blank(vec![1, 1], 8, false), false).is_none());
    let (c, t) = map_fn::cache_write_addr_gen(&make_number_tile(3, false), &make_number_tile(5, false), 16, 1, true)
        .unwrap();
    assert_eq!((c, read_number_tile(&t), t.bytes_per_elem, t.read_from_mu), (1, Some(53), 8, true));
    assert!(map_fn::cache_write_addr_gen(
        &make_number_tile(u64::MAX, false),
        &make_number_tile(5, false),
        16,
        1,
        true
    )
    .is_none());
    let (c, t) = accum_fn::signal_req_all_read(&data, true);
    assert_eq!((c, read_number_tile(&t)), (1, Some(1)));
    let (_, t) = accum_fn::signal_req_all_read(&Tile::<i32>::new_blank(vec![2, 2], 4, true), false);
    assert_eq!((t.underlying.clone(), t.shape.clone()), (None, vec![1, 1]));
}

#[test]
fn flatmap_test_retile_col() {
    // [1,3] => [1,9]
    // [4,3] tile => [4,1] tile
    let arrays_input: Vec<Tile<i32>> = (0..9).map(|i| tile_of(4, 1, vec![i as i32; 4], true)).collect();
    let arrays_output: Vec<Tile<i32>> = (0..9).map(|i| tile_of(1, 4, vec![i as i32; 4], true)).collect();
    let mut in_stream_data = Vec::new();
    for i in 0..3 {
        let t = concat_cols(&[&arrays_input[i * 3], &arrays_input[i * 3 + 1], &arrays_input[i * 3 + 2]]);
        in_stream_data.push(if i == 2 { Elem::ValStop(t, 1) } else { Elem::Val(t) });
    }
    let mut ground_truth = Vec::new();
    for (i, tile) in arrays_output.iter().enumerate() {
        ground_truth.push(if i == 8 { Elem::ValStop(tile.clone(), 1) } else { Elem::Val(tile.clone()) });
    }
    let retile = RetileStreamify::new(false, false);
    let mut out = Vec::new();
    for e in &in_stream_data {
        out.extend(retile.retile(e.data(), e.stop_marker()));
    }
    assert_eq!(out, ground_truth);
}

#[test]
fn flatmap_test_retile_row() {
    // [1,3] => [1,9]
    // [3,4] tile => [1,4] tile
    let arrays: Vec<Tile<i32>> = (0..9).map(|i| tile_of(1, 4, vec![i as i32; 4], true)).collect();
    let mut in_stream_data = Vec::new();
    for i in 0..3 {
        let t = concat_rows(&[&arrays[i * 3], &arrays[i * 3 + 1], &arrays[i * 3 + 2]]);
        in_stream_data.push(if i == 2 { Elem::ValStop(t, 1) } else { Elem::Val(t) });
    }
    let mut ground_truth = Vec::new();
    for (i, tile) in arrays.iter().enumerate() {
        ground_truth.push(if i == 8 { Elem::ValStop(tile.clone(), 1) } else { Elem::Val(tile.clone()) });
    }
    let retile = RetileStreamify::new(true, false);
    let mut out = Vec::new();
    for e in &in_stream_data {
        out.extend(retile.retile(e.data(), e.stop_marker()));
    }
    assert_eq!(out, ground_truth);
}

#[test]
fn test_retile_row_filter() {
    // [1,3] => [1,7]
    // [3,4] tile => [1,4] tile (last tile is padded with 2 vectors)
    let arrays_input: Vec<Tile<i32>> = (0..9).map(|i| tile_of(1, 4, vec![i as i32; 4], true)).collect();
    let arrays_output: Vec<Tile<i32>> = (0..7).map(|i| tile_of(1, 4, vec![i as i32; 4], true)).collect();
    let mut in_stream_data = Vec::new();
    for i in 0..3 {
        let t = concat_rows(&[&arrays_input[i * 3], &arrays_input[i * 3 + 1], &arrays_input[i * 3 + 2]]);
        if i == 2 {
            let padded = Tile::new_padded(3, 4, t.underlying.clone().unwrap(), 4, true, 1).unwrap();
            in_stream_data.push(Elem::ValStop(padded, 1));
        } else {
            in_stream_data.push(Elem::Val(t));
        }
    }
    let mut ground_truth = Vec::new();
    for (i, tile) in arrays_output.iter().enumerate() {
        ground_truth.push(if i == 6 { Elem::ValStop(tile.clone(), 1) } else { Elem::Val(tile.clone()) });
    }
    let retile = RetileStreamify::new(true, true);
    let mut out = Vec::new();
    for e in &in_stream_data {
        out.extend(retile.retile(e.data(), e.stop_marker()));
    }
    assert_eq!(out, ground_truth);
    // Without values the same pieces come as blank tiles.
    let blank = Tile::<i32>::new_blank_padded(vec![3, 4], 4, true, 1);
    let pieces = retile.retile(&blank, Some(2));
    assert_eq!(pieces, vec![Elem::ValStop(Tile::new_blank_padded(vec![1, 4], 4, true, 1), 2)]);
    let all = RetileStreamify::new(true, false).retile(&blank, None);
    assert_eq!(all.len(), 3);
    assert_eq!(all[1], Elem::Val(Tile::new_blank_padded(vec![1, 4], 4, true, 0)));
}

#[test]
fn test_expert_addr_gen() {
    let num_tile_per_expert = 3;
    let sels = vec![
        Elem::Val(MultiHotN::new(vec![false, false, true, false, false, false, false, false], false)), // 2
        Elem::Val(MultiHotN::new(vec![false, true, false, false, false, false, false, false], false)), // 1
        Elem::Val(MultiHotN::new(vec![false, false, false, true, false, false, false, false], false)), // 3
        Elem::Val(MultiHotN::new(vec![false, false, false, false, false, false, false, true], false)), // 7
    ];
    let gen = ExpertAddrGen::new(num_tile_per_expert, 0);
    let mut out = Vec::new();
    for s in &sels {
        out.extend(gen.generate(&s.data().to_sel_vec(), s.stop_marker()).unwrap());
    }
    let expected: Vec<Elem<Tile<u64>>> = vec![vec![0, 1, 2]; 4]
        .into_iter()
        .zip(vec![2, 1, 3, 7].into_iter())
        .map(|(vec_addr, expert_i)| {
            vec_addr
                .iter()
                .map(|addr| {
                    Elem::ValStop(
                        make_number_tile(expert_i * num_tile_per_expert + *addr as u64, false),
                        if *addr < num_tile_per_expert - 1 { 1 } else { 2 },
                    )
                })
                .collect::<Vec<Elem<Tile<u64>>>>()
        })
        .flatten()
        .collect();
    assert_eq!(out, expected);
    assert_eq!(out[0].data().bytes_per_elem, 8);
    assert_eq!(gen.generate(&vec![1, 2], None).err(), Some(ProtocolError::BadConfig));
    assert_eq!(gen.generate(&vec![1], Some(1)).err(), Some(ProtocolError::UnexpectedStop));
    let based = ExpertAddrGen::new(2, 100).generate(&vec![3], None).unwrap();
    assert_eq!(based.iter().map(|e| read_number_tile(e.data()).unwrap()).collect::<Vec<_>>(), vec![106, 107]);
}

#[test]
fn test_cache_read_addr_gen() {
    let offset_per_idx = 16;
    let gen = CacheReadAddrGen::new(offset_per_idx);
    let mut out = Vec::new();
    for (idx, seq_len) in vec![0u64, 3, 11].into_iter().zip(vec![2u64, 4, 3]) {
        let idx_tile = Elem::Val(make_number_tile(idx, false));
        let len_tile = Elem::Val(make_number_tile(seq_len, false));
        out.extend(
            gen.generate(
                read_number_tile(idx_tile.data()).unwrap(),
                read_number_tile(len_tile.data()).unwrap(),
                idx_tile.stop_marker(),
                len_tile.stop_marker(),
            )
            .unwrap(),
        );
    }
    let mut gold = vec![];
    for (idx, seq_len) in vec![(0u64, 2u64), (3, 4), (11, 3)].into_iter() {
        for i in 0..(seq_len - 1) {
            gold.push(Elem::Val(make_number_tile(idx * offset_per_idx + i, false)));
        }
        gold.push(Elem::ValStop(make_number_tile(idx * offset_per_idx + (seq_len - 1), false), 1));
    }
    assert_eq!(out, gold);
    let stopped = gen.generate(2, 2, Some(1), Some(1)).unwrap();
    assert_eq!(stopped[1], Elem::ValStop(make_number_tile(33, false), 2));
    assert_eq!(gen.generate(2, 2, Some(1), None).err(), Some(ProtocolError::ShapeMismatch));
    assert_eq!(gen.generate(2, 0, None, None).err(), Some(ProtocolError::BadConfig));
}

#[test]
fn test_filter_last_tile() {
    let filter = FilterLastTile::new();
    let mut out = Vec::new();
    for seq_len in vec![2u64, 4, 3] {
        let t = Elem::Val(make_number_tile(seq_len, false));
        out.extend(filter.generate(read_number_tile(t.data()).unwrap(), t.stop_marker()).unwrap());
    }
    let mut gold = vec![];
    for seq_len in vec![2, 4, 3].into_iter() {
        for _ in 0..(seq_len - 1) {
            gold.push(Elem::Val(MultiHotN::new(vec![false, true], false)));
        }
        gold.push(Elem::ValStop(MultiHotN::new(vec![true, false], false), 1));
    }
    assert_eq!(out, gold);
    let stopped = filter.generate(1, Some(2)).unwrap();
    assert_eq!(stopped, vec![Elem::ValStop(MultiHotN::new(vec![true, false], false), 3)]);
    assert_eq!(filter.generate(0, None).err(), Some(ProtocolError::BadConfig));
}

#[test]
fn test_3d() {
    // shape: [2, 3, 2], the numbers 0 to 11
    let gen = MetadataGen::new(vec![2, 3, 2], (0..12u64).collect()).unwrap();
    let out = gen.get_elem_array();
    let values: Vec<u64> = out.iter().map(|e| read_number_tile(e.data()).unwrap()).collect();
    assert_eq!(values, (0..12u64).collect::<Vec<_>>());
    let levels: Vec<u32> = out.iter().map(|e| e.stop_level()).collect();
    assert_eq!(levels, vec![0, 1, 0, 1, 0, 2, 0, 1, 0, 1, 0, 3]);
    for e in &out {
        println!("{:?}", e);
        assert_eq!((e.data().shape.clone(), e.data().bytes_per_elem, e.data().read_from_mu), (vec![1, 1], 8, false));
    }
    assert_eq!(out[0], Elem::Val(make_number_tile(0, false)));
    assert_eq!(out[11], Elem::ValStop(make_number_tile(11, false), 3));
}

#[test]
fn test_3d_i64() {
    // shape: [4], the numbers 0 to 3 as signed numbers
    let numbers: Vec<i64> = (0..4).collect();
    let gen = MetadataGen::new(vec![4], to_u64_vec(numbers)).unwrap();
    let out = gen.get_elem_array();
    assert_eq!(
        out,
        vec![
            Elem::Val(make_number_tile(0, false)),
            Elem::Val(make_number_tile(1, false)),
            Elem::Val(make_number_tile(2, false)),
            Elem::ValStop(make_number_tile(3, false), 1),
        ]
    );
    assert!(MetadataGen::new(vec![2, 3], vec![0; 5]).is_none());
}
