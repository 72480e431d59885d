use std::collections::HashMap;

use step_perf::build_sim::channel::{ChannelMap, DEFAULT_CHAN_SIZE};
use step_perf::functions::map_fn;
use step_perf::memory::dyn_offchip_load::DynOffChipLoad;
use step_perf::memory::hbm::{HBMConfig, HBMContext};
use step_perf::memory::offchip_load::{source_tile_of, OffChipLoad};
use step_perf::memory::offchip_store::{OffChipStore, OffChipStoreRamulator};
use step_perf::memory::random_offchip_load::RandomOffChipLoad;
use step_perf::memory::random_offchip_store::RandomOffChipStore;
use step_perf::memory::{dispatch_plan, tile_addresses, HbmAddrEnum, TileLayout};
use step_perf::operator::broadcast::BroadcastContext;
use step_perf::operator::map::BinaryMap;
use step_perf::operator::partition::expert_streams;
use step_perf::operator::repeat::RepeatStatic;
use step_perf::operator::ProtocolError;
use step_perf::primitives::buffer::Buffer;
use step_perf::primitives::elem::Elem;
use step_perf::primitives::select::MultiHotN;
use step_perf::primitives::tile::{checked_shape_product, Tile};
use step_perf::proto_driver::configs::SimConfig;
use step_perf::proto_driver::get_chan_depth;
use step_perf::utils::calculation::{div_ceil, get_stop_level};
use step_perf::utils::cast::{to_u64_vec, to_usize_vec};
use step_perf::utils::events::{LoggableEventSimple, SimpleEvent, DUMMY_ID};
use step_perf::utils::select_npy::{multihot_elems, SelectShapeError};

fn own<T: Clone>(v: Vec<Elem<&T>>) -> Vec<Elem<T>> {
    v.into_iter()
        .map(|e| match e {
            Elem::Val(x) => Elem::Val(x.clone()),
            Elem::ValStop(x, s) => Elem::ValStop(x.clone(), s),
        })
        .collect()
}

fn parts<T: Clone>(item: &HbmAddrEnum<T>) -> (Vec<u64>, Tile<T>, Option<u32>) {
    match item {
        HbmAddrEnum::ADDR(a, t) => (a.clone(), t.clone(), None),
        HbmAddrEnum::ADDRSTOP(a, t, s) => (a.clone(), t.clone(), Some(*s)),
    }
}

fn hbm_config() -> HBMConfig {
    HBMConfig {
        addr_offset: 64,
        channel_num: 8,
        per_channel_latency: 2,
        per_channel_init_interval: 2,
        per_channel_outstanding: 1,
        per_channel_start_up_time: 14,
    }
}

#[test]
fn test_generate_addr() {
    const ADDR_OFFSET: u64 = 64;
    // 2D repeat view (size-1 dim)
    const B: usize = 32;
    const H: usize = 64;
    let par_b = 16;
    let tile_m_gen_q = par_b;
    let tile_k_gen_q = H; // Same as the dimension's size as we don't tile this dim.
    let tile_n_gen_q = 32;

    let tensor_shape_tiled = vec![H / tile_n_gen_q, H / tile_k_gen_q]; // As we don't tile K, the second element is 1
    let stride = vec![0, H / tile_k_gen_q, 1];
    let out_shape_tiled = vec![B / tile_m_gen_q, H / tile_n_gen_q, H / tile_k_gen_q];
    let tile_row = 16;
    let tile_col = 32;
    let n_byte = 2;
    let base_addr_byte = 0;

    let load = OffChipLoad::new(
        tensor_shape_tiled,
        stride,
        out_shape_tiled,
        tile_row,
        tile_col,
        n_byte,
        base_addr_byte,
        ADDR_OFFSET,
        8,
    )
    .unwrap();
    let addrs = load.generate_addr::<u32>(&None);
    for i in addrs.iter() {
        println!("Addr: {:?}", i);
    }
    assert_eq!(addrs.len(), 4);
    let got: Vec<(Vec<u64>, Tile<u32>, Option<u32>)> = addrs.iter().map(parts).collect();
    // The view repeats the two tiles of the tensor.
    let tile0: Vec<u64> = (0..16).map(|r| r * 64).collect();
    let tile1: Vec<u64> = (0..16).map(|r| 1024 + r * 64).collect();
    assert_eq!(got[0].0, tile0);
    assert_eq!(got[1].0, tile1);
    assert_eq!(got[2].0, tile0);
    assert_eq!(got[3].0, tile1);
    assert_eq!(got.iter().map(|g| g.2).collect::<Vec<_>>(), vec![Some(1), Some(2), Some(1), Some(3)]);
    for g in &got {
        assert_eq!(g.1, Tile::new_blank(vec![16, 32], 2, true));
    }
}

#[test]
fn strided_views_pick_their_tiles() {
    // Identity view
    let ids: Vec<usize> = (0..6).map(|f| source_tile_of(&vec![2, 3], &vec![3, 1], 6, f)).collect();
    assert_eq!(ids, vec![0, 1, 2, 3, 4, 5]);
    // 2D repeat view
    let ids: Vec<usize> = (0..12).map(|f| source_tile_of(&vec![2, 3, 2], &vec![0, 2, 1], 6, f)).collect();
    assert_eq!(ids, vec![0, 1, 2, 3, 4, 5, 0, 1, 2, 3, 4, 5]);
    // 1D repeat view
    let ids: Vec<usize> = (0..12).map(|f| source_tile_of(&vec![2, 2, 3], &vec![3, 0, 1], 6, f)).collect();
    assert_eq!(ids, vec![0, 1, 2, 0, 1, 2, 3, 4, 5, 3, 4, 5]);
    // The position wraps around the number of tiles.
    assert_eq!(source_tile_of(&vec![4], &vec![5], 6, 3), 3);
    assert_eq!(source_tile_of(&vec![4], &vec![usize::MAX], 7, 3), (3u128 * usize::MAX as u128 % 7) as usize);
    assert_eq!(source_tile_of(&vec![4], &vec![5], 0, 3), 0);
}

#[test]
fn loader_with_values_sends_the_tiles_of_the_tensor() {
    let tiles: Vec<Tile<u32>> = (0..4).map(|i| Tile::new(1, 2, vec![i, i], 4, true).unwrap()).collect();
    // A transposed view of a 2 x 2 tensor of tiles.
    let load = OffChipLoad::new(vec![2, 2], vec![1, 2], vec![2, 2], 1, 2, 4, 1000, 4, 1).unwrap();
    let got: Vec<_> = load.generate_addr(&Some(tiles.clone())).iter().map(parts).collect();
    assert_eq!(got.iter().map(|g| g.1.underlying.clone().unwrap()[0]).collect::<Vec<_>>(), vec![0, 2, 1, 3]);
    assert_eq!(got[1].0, vec![1016, 1020]);
    assert_eq!(got[1].2, Some(1));
    assert_eq!(got[3].2, Some(2));
    assert_eq!(load.on_chip_req_elems(), 2);
    assert_eq!(load.loaded_elems(), 8);
    // A view and strides of unlike length, and nothing dispatched per
    // cycle, are faults of the graph.
    assert!(OffChipLoad::new(vec![2, 2], vec![1], vec![2, 2], 1, 2, 4, 0, 4, 1).is_none());
    assert!(OffChipLoad::new(vec![2, 2], vec![1, 2], vec![2, 2], 1, 2, 4, 0, 4, 0).is_none());
    assert!(OffChipLoad::new(vec![2, 2], vec![1, 2], vec![2, 2], 1, 2, 4, 0, 0, 1).is_none());
    assert!(OffChipLoad::new(vec![], vec![], vec![], 1, 2, 4, 0, 4, 1).is_none());
    assert!(OffChipLoad::new(vec![2, 2], vec![1, 2], vec![2, 2], 1, 2, 4, u64::MAX - 8, 4, 1).is_none());
}

#[test]
fn round_trip_test_4d() {
    // matrix: [2,2]
    // [2,3] (ref)
    // output = [2,3,2,2]
    const BYTES_PER_ELEM: usize = 4;
    const TILE_ROW: usize = 16;
    const TILE_COL: usize = 16;
    const ADDR_OFFSET: u64 = 64; // The number of bytes to read per request
    let ref_buff = Buffer::new(vec![2, 3], vec![MultiHotN::new(vec![true, false], false); 2 * 3], 0).unwrap();
    let refs = own(ref_buff.to_elem_iter());
    let load = DynOffChipLoad::new(
        vec![2, 2],
        vec![2, 1],
        vec![2, 2],
        TILE_ROW,
        TILE_COL,
        BYTES_PER_ELEM,
        0,
        ADDR_OFFSET,
        4,
    )
    .unwrap();
    let mut memory = HBMContext::new(hbm_config()).unwrap();
    let mut now = 0u64;
    let mut out: Vec<Elem<Tile<u32>>> = Vec::new();
    for r in &refs {
        for item in load.load.generate_addr::<u32>(&None) {
            let (addrs, tile, stop) = parts(&item);
            assert_eq!(addrs.len(), 16);
            let mut done = now;
            for (time, chunk) in dispatch_plan(&addrs, load.load.par_dispatch, now) {
                for a in chunk {
                    done = done.max(memory.serve(a, time));
                }
            }
            now = done;
            match load.final_stop(stop, r.stop_marker()) {
                Some(level) => out.push(Elem::ValStop(tile, level)),
                None => out.push(Elem::Val(tile)),
            }
        }
    }
    let tile_vec = vec![Tile::<u32>::new_blank(vec![TILE_ROW, TILE_COL], BYTES_PER_ELEM, true); 2 * 3 * 2 * 2];
    let buff = Buffer::new(vec![2, 3, 2, 2], tile_vec, 0).unwrap();
    assert_eq!(out, own(buff.to_elem_iter()));
    assert_eq!(load.on_chip_req_elems(), 256);
}

#[test]
fn test_gen_q_with_data() {
    const ADDR_OFFSET: u64 = 64; // 32 elements in this test case
    const PAR_DISPATCH: usize = 8;
    const B: usize = 32;
    const H: usize = 64;
    let n_byte = 4;
    let par_b = 16;

    // ====================== Base for all matrices ======================
    let tensor_sizes = HashMap::from([("Input", B * H), ("W_Q", H * H), ("Output", B * H)]);
    let mut tensor_addrs: HashMap<&'static str, usize> = HashMap::new();
    let mut offset: usize = 0;
    for name in ["Input", "W_Q", "Output"] {
        tensor_addrs.insert(name, offset);
        offset += tensor_sizes[name] * n_byte;
    }

    // ====================== Generate Q ======================
    let tile_m_gen_q = par_b;
    let tile_k_gen_q = H; // Same as the dimension's size as we don't tile this dim.
    let tile_n_gen_q = 32;
    let mat1 = OffChipLoad::new(
        vec![B / tile_m_gen_q, H / tile_k_gen_q], // As we don't tile K, the second element is 1
        vec![H / tile_k_gen_q, 1],
        vec![B / tile_m_gen_q, H / tile_k_gen_q],
        tile_m_gen_q,
        tile_k_gen_q,
        n_byte,
        tensor_addrs["Input"] as u64,
        ADDR_OFFSET,
        PAR_DISPATCH,
    )
    .unwrap();
    let repeat_mat1 = RepeatStatic::new(H / tile_n_gen_q);
    // For the weights, we will assume it's saved in a transposed order
    let mat2_stride = if H / tile_k_gen_q == 1 || H / tile_n_gen_q == 1 {
        vec![0, H / tile_n_gen_q, 1]
    } else {
        vec![0, 1, H / tile_n_gen_q]
    };
    let mat2 = OffChipLoad::new(
        vec![H / tile_k_gen_q, H / tile_n_gen_q],
        mat2_stride,
        vec![B / tile_m_gen_q, H / tile_k_gen_q, H / tile_n_gen_q],
        tile_k_gen_q,
        tile_n_gen_q,
        n_byte,
        tensor_addrs["W_Q"] as u64,
        ADDR_OFFSET,
        PAR_DISPATCH,
    )
    .unwrap();
    let gen_q = BinaryMap::new(1022, true);
    let mut store_ctx = OffChipStore::new(
        vec![B / tile_m_gen_q, H / tile_n_gen_q],
        tile_m_gen_q,
        tile_n_gen_q,
        tensor_addrs["Output"] as u64,
        ADDR_OFFSET,
        PAR_DISPATCH,
    );

    // ====================== Simple Metrics ======================
    let on_chip_req_bytes =
        (mat1.on_chip_req_elems() + mat2.on_chip_req_elems() + store_ctx.on_chip_req_elems()) * n_byte;
    let data_movement_bytes = (mat1.loaded_elems() + mat2.loaded_elems() + store_ctx.stored_elems()) * n_byte;
    println!("on_chip_req_bytes: {}", on_chip_req_bytes);
    println!("data_movement_bytes: {}", data_movement_bytes);
    assert_eq!(on_chip_req_bytes, (16 * 64 + 64 * 32 + 16 * 32) * 4);
    assert_eq!(data_movement_bytes, (32 * 64 + 2 * 2 * 64 * 32 + 32 * 64) * 4);

    // ====================== The streams ======================
    let in1: Vec<Elem<Tile<u32>>> = mat1
        .generate_addr::<u32>(&None)
        .iter()
        .map(|i| {
            let (_, t, s) = parts(i);
            Elem::from_stop(t, s)
        })
        .collect();
    let in1 = own(repeat_mat1.run(&in1));
    let in2: Vec<Elem<Tile<u32>>> = mat2
        .generate_addr::<u32>(&None)
        .iter()
        .map(|i| {
            let (_, t, s) = parts(i);
            Elem::from_stop(t, s)
        })
        .collect();
    // The input repeated once per tile of columns has the shape of the
    // view of the weights.
    assert_eq!(in1.iter().map(|e| e.stop_level()).collect::<Vec<_>>(), vec![0, 2, 0, 3]);
    assert_eq!(in2.iter().map(|e| e.stop_level()).collect::<Vec<_>>(), vec![0, 2, 0, 3]);
    let (out, cycles) = gen_q
        .run(&in1, &in2, |a: &Tile<u32>, b: &Tile<u32>, bw, wb| map_fn::matmul(a, b, bw, wb, false, None))
        .unwrap();
    assert_eq!(out.len(), 4);
    for e in &out {
        assert_eq!(e.data(), &Tile::new_blank(vec![16, 32], 4, true));
    }
    assert_eq!(out.iter().map(|e| e.stop_level()).collect::<Vec<_>>(), vec![0, 2, 0, 3]);
    // Loads of 4096 and 8192 bytes against 65 cycles of compute and a store
    // of 2048 bytes.
    assert_eq!(cycles, vec![192; 4]);

    // ====================== The memory ======================
    let mut memory = HBMContext::new(hbm_config()).unwrap();
    let first = mat1.generate_addr::<u32>(&None);
    let (addrs, _, _) = parts(&first[0]);
    assert_eq!(addrs.len(), 16 * 4);
    let plan = dispatch_plan(&addrs, PAR_DISPATCH, 0);
    assert_eq!(plan.len(), 8);
    let mut last = 0;
    for (time, chunk) in plan {
        for a in chunk {
            last = last.max(memory.serve(a, time));
        }
    }
    // Eight requests per channel: the last one is served seven intervals
    // after the start-up time.
    assert_eq!(last, 14 + 7 * 2 + 2);
    let out_tile = Tile::<u32>::new_blank(vec![tile_m_gen_q, tile_n_gen_q], n_byte, true);
    let writes = store_ctx.on_tile(&out_tile.shape, out_tile.bytes_per_elem).unwrap();
    assert_eq!(writes.len(), 16 * 2);
    assert_eq!(writes[0], tensor_addrs["Output"] as u64);
}

#[test]
fn hbm_single_reader() {
    // 128 addresses in bursts of 32 against 8 channels.
    let mut memory = HBMContext::new(hbm_config()).unwrap();
    let addrs: Vec<u64> = (0..128u64).map(|k| k * 64).collect();
    let mut last_of_channel = vec![0u64; 8];
    for (time, burst) in dispatch_plan(&addrs, 32, 0) {
        for a in burst {
            let ch = memory.channel(a);
            assert_eq!(ch as u64, (a / 64) % 8);
            last_of_channel[ch] = memory.serve(a, time);
        }
    }
    assert_eq!(last_of_channel, vec![14 + ((16 - 1) * 2) + 2; 8]);
    assert_eq!(last_of_channel[0], 46);
}

#[test]
fn hbm_latency_bound() {
    let config = HBMConfig {
        addr_offset: 64,
        channel_num: 4,
        per_channel_latency: 5,
        per_channel_init_interval: 3,
        per_channel_outstanding: 1,
        per_channel_start_up_time: 10,
    };
    let mut memory = HBMContext::new(config).unwrap();
    // Requests to one channel at growing times: the k-th response is not
    // before start-up + (k - 1) intervals + latency.
    let times = [0u64, 1, 2, 30, 31, 100];
    for (k, t) in times.iter().enumerate() {
        let response = memory.serve(4 * 64 * k as u64 + 64, *t);
        assert!(response >= 10 + (k as u64) * 3 + 5);
    }
    let mut memory = HBMContext::new(config).unwrap();
    assert_eq!(memory.serve(64, 0), 15);
    assert_eq!(memory.serve(64, 0), 18);
    assert_eq!(memory.serve(64, 40), 45);
    assert_eq!(memory.serve(64, 41), 48);
    // Another channel has not been busy.
    assert_eq!(memory.serve(128, 41), 46);
    assert_eq!(memory.try_serve(128, 41), Some(49));
    // A response beyond the range of the clock is refused, and the channel
    // stays as it is.
    assert_eq!(memory.try_serve(128, u64::MAX - 3), None);
    assert_eq!(memory.try_serve(128, 41), Some(52));
    assert!(HBMContext::new(HBMConfig { channel_num: 0, ..config }).is_none());
    assert!(HBMContext::new(HBMConfig { addr_offset: 0, ..config }).is_none());
}

#[test]
fn requests_are_dispatched_in_groups() {
    let addrs: Vec<u64> = (0..7).collect();
    let plan = dispatch_plan(&addrs, 3, 100);
    assert_eq!(plan, vec![(100, vec![0, 1, 2]), (101, vec![3, 4, 5]), (102, vec![6])]);
    assert_eq!(dispatch_plan(&addrs, 7, 5), vec![(5, addrs.clone())]);
    assert_eq!(dispatch_plan(&addrs, 1, 0).len(), 7);
    assert_eq!(dispatch_plan(&vec![], 4, 0), vec![]);
}

#[test]
fn tile_addresses_cover_the_rows() {
    // Two rows of 100 bytes, 1000 bytes apart, 64 bytes per request.
    assert_eq!(tile_addresses(5000, 2, 100, 1000, 64), vec![5000, 5064, 6000, 6064]);
    assert_eq!(tile_addresses(0, 3, 64, 64, 64), vec![0, 64, 128]);
    assert_eq!(tile_addresses(0, 3, 0, 64, 64), Vec::<u64>::new());
    let layout = TileLayout {
        tensor_shape_tiled: vec![3, 2],
        tile_row: 2,
        tile_col: 4,
        n_byte: 2,
        base_addr_byte: 100,
        addr_offset: 4,
    };
    assert!(layout.check());
    // Tile 1: 100 + 16, rows 16 bytes apart.
    assert_eq!(layout.generate_tile_addresses(1), vec![116, 120, 132, 136]);
    assert_eq!(layout.untiled_shape(), Some(vec![6, 8]));
    assert_eq!(TileLayout { tensor_shape_tiled: vec![5, 3, 2], ..layout.clone() }.untiled_shape(), Some(vec![5, 6, 8]));
    assert_eq!(TileLayout { tensor_shape_tiled: vec![2], ..layout.clone() }.untiled_shape(), None);
    assert!(!TileLayout { addr_offset: 0, ..layout.clone() }.check());
    assert!(!TileLayout { tile_row: usize::MAX, ..layout.clone() }.check());
}

#[test]
fn stores_count_their_tiles() {
    let mut store = OffChipStore::new(vec![1, 2], 2, 4, 1000, 4, 2);
    assert_eq!(store.on_tile(&vec![2, 4], 2), Ok(vec![1000, 1004, 1016, 1020]));
    assert_eq!(store.on_tile(&vec![2, 4], 2), Ok(vec![1016, 1020, 1032, 1036]));
    // The store goes on behind the two tiles of the tensor.
    assert_eq!(store.on_tile(&vec![2, 4], 2), Ok(vec![1032, 1036, 1048, 1052]));
    assert_eq!(store.tile_idx, 3);
    // The last address of the first tile is the last of all addresses; the
    // second tile has none left.
    let mut top = OffChipStore::new(vec![1, 2], 2, 4, u64::MAX - 20, 4, 2);
    assert_eq!(
        top.on_tile(&vec![2, 4], 2),
        Ok(vec![u64::MAX - 20, u64::MAX - 16, u64::MAX - 4, u64::MAX])
    );
    assert_eq!(top.check_tile(&vec![2, 4], 2), Some(ProtocolError::BadConfig));
    assert_eq!(top.tile_idx, 1);
    // Requests that move no bytes.
    let still = OffChipStore::new(vec![1, 2], 2, 4, 0, 0, 2);
    assert_eq!(still.check_tile(&vec![2, 4], 2), Some(ProtocolError::BadConfig));
    // A tile of another shape, and after the first tile one of another
    // width, are not taken.
    let mut store = OffChipStore::new(vec![1, 2], 2, 4, 1000, 4, 2);
    assert_eq!(store.check_tile(&vec![2, 5], 2), Some(ProtocolError::ShapeMismatch));
    assert_eq!(store.check_tile(&vec![4, 2], 2), Some(ProtocolError::ShapeMismatch));
    assert_eq!(store.check_tile(&vec![2, 4, 1], 2), Some(ProtocolError::ShapeMismatch));
    assert_eq!(store.check_tile(&vec![2, 4], 2), None);
    assert_eq!(store.check_tile(&vec![2, 4], 4), None);
    assert!(store.on_tile(&vec![2, 4], 2).is_ok());
    assert_eq!(store.check_tile(&vec![2, 4], 4), Some(ProtocolError::ShapeMismatch));
    assert_eq!(store.check_tile(&vec![2, 4], 2), None);
    assert_eq!((store.tile_idx, store.n_bytes), (1, Some(2)));
    assert_eq!(store.stored_elems(), 16);
    let ram = OffChipStoreRamulator::new(vec![2, 2], 2, 4, 0, 64);
    assert_eq!((ram.on_chip_req_elems(), ram.stored_elems(), ram.store.par_dispatch), (8, 32, 1));
}

#[test]
fn random_access_to_tiles() {
    let load = RandomOffChipLoad::new(vec![2, 2], 2, 4, 2, 100, 4, 2).unwrap();
    assert_eq!(load.generate_tile_addresses(3), Some(vec![148, 152, 164, 168]));
    // A tile number behind the tensor is addressed like the others.
    assert_eq!(load.generate_tile_addresses(5), Some(vec![180, 184, 196, 200]));
    assert_eq!(load.generate_tile_addresses(u64::MAX), None);
    let tiles: Vec<Tile<u32>> = (0..4).map(|i| Tile::new(2, 4, vec![i; 8], 2, true).unwrap()).collect();
    assert_eq!(load.create_tile_data(2, &Some(tiles.clone())), tiles[2]);
    assert_eq!(load.create_tile_data(9, &Some(tiles.clone())), Tile::new_blank(vec![2, 4], 2, true));
    assert_eq!(load.create_tile_data::<u32>(2, &None), Tile::new_blank(vec![2, 4], 2, true));
    assert!(RandomOffChipLoad::new(vec![2, 2], 2, 4, 2, 100, 4, 0).is_none());

    let store = RandomOffChipStore::new(vec![2, 3], 2, 4, 2, 100, 4, 2, true).unwrap();
    assert_eq!(store.send_write_request(1, 2, 16), Some(vec![116, 120, 140, 144]));
    assert_eq!(store.send_write_request(7, 2, 16), Some(vec![212, 216, 236, 240]));
    // The bytes per entry and the size are those of the tile that comes.
    assert_eq!(
        store.send_write_request(1, 4, 32),
        Some(vec![132, 136, 140, 144, 180, 184, 188, 192])
    );
    assert_eq!(store.send_write_request(u64::MAX, 2, 16), None);
    assert_eq!(store.update_underlying(4), (2, 4));
    assert_eq!(store.update_underlying(2), (0, 8));
    assert_eq!(store.ack_stop(Some(2), None), Some(2));
    assert_eq!(store.ack_stop(None, Some(1)), None);
    let by_data = RandomOffChipStore::new(vec![2, 3], 2, 4, 2, 100, 4, 2, false).unwrap();
    assert_eq!(by_data.ack_stop(Some(2), None), None);
    assert_eq!(by_data.ack_stop(Some(2), Some(1)), Some(1));
}

#[test]
fn channel_map_joins_the_two_ends() {
    let mut made = 0usize;
    let mut map: ChannelMap<String, String> = ChannelMap::new();
    // The consumer is bound first: a channel is made, the sender waits.
    let rcv = map
        .get_receiver(7, None, Some(2), |cap: usize| {
            made += 1;
            (format!("snd{}", cap), format!("rcv{}", cap))
        })
        .unwrap();
    assert_eq!(rcv, "rcv2");
    // The producer takes the sender that waits; no channel is made.
    let snd = map.get_sender(7, None, Some(99), |_| panic!("the end waits in the map")).unwrap();
    assert_eq!(snd, "snd2");
    assert!(map.map.as_ref().unwrap().is_empty());
    // The producer of several streams, bound first, without a capacity.
    let s0 = map.get_sender(3, Some(0), None, |cap: usize| (format!("s0/{}", cap), "r0".to_string())).unwrap();
    let s1 = map.get_sender(3, Some(1), None, |_| ("s1".to_string(), "r1".to_string())).unwrap();
    assert_eq!((s0, s1), (format!("s0/{}", DEFAULT_CHAN_SIZE), "s1".to_string()));
    assert_eq!(map.get_receiver(3, Some(1), None, |_| panic!("made")).unwrap(), "r1");
    assert_eq!(map.get_receiver(3, Some(0), None, |_| panic!("made")).unwrap(), "r0");
    // A single stream asked of a producer of several is a fault.
    assert!(!map.can_get_receiver(3, None));
    assert!(!map.can_get_sender(3, None));
    assert!(map.can_get_receiver(3, Some(4)));
    // So is the end that was handed out before.
    assert!(map.can_get_sender(5, None));
    map.get_sender(5, None, None, |_| ("s".to_string(), "r".to_string())).unwrap();
    assert!(!map.can_get_sender(5, None));
    assert!(map.can_get_receiver(5, None));
    assert!(!map.can_get_receiver(5, Some(0)));
    let s2 = map.get_sender(6, Some(2), None, |_| ("s2".to_string(), "r2".to_string())).unwrap();
    assert_eq!(s2, "s2");
    assert!(!map.can_get_sender(6, Some(2)));
    assert!(map.can_get_receiver(6, Some(2)));
    assert!(map.can_get_sender(6, Some(3)));
    // A producer that the map has never seen.
    assert!(map.can_get_sender(99, None) && map.can_get_receiver(99, Some(1)));
    assert!(ChannelMap::<String, String>::new().can_get_sender(1, None));
    assert_eq!(made, 1);
    map.instantiate();
    assert!(map.map.as_ref().unwrap().is_empty());
}

#[test]
fn channel_depths() {
    let mut config_dict = HashMap::new();
    config_dict.insert(4u32, 2usize);
    assert_eq!(get_chan_depth(&config_dict, 4, Some(1)), Some(2));
    assert_eq!(get_chan_depth(&config_dict, 5, Some(1)), Some(1));
    assert_eq!(get_chan_depth(&config_dict, 5, None), None);
    let config = SimConfig { channel_depth: Some(1), functional_sim: false, mock_bf16: true, config_dict };
    assert_eq!(config.depth_of(4), Some(2));
    assert_eq!(config.depth_of(0), Some(1));
    assert_eq!(config.f32_bytes(), 2);
    assert_eq!(SimConfig { mock_bf16: false, ..config.clone() }.f32_bytes(), 4);
}

#[test]
fn test_conversion() {
    // A tensor of shape [2, 3, 4] of zeros and ones: six selectors of
    // width four, sent to two targets.
    let numbers: Vec<i64> = (0..24).map(|k| (k % 3 == 0) as i64).collect();
    let bool_data: Vec<bool> = numbers.iter().map(|x| *x != 0).collect();
    let elems = multihot_elems(&bool_data, &vec![2, 3, 4]).unwrap();
    assert_eq!(elems.len(), 6);
    assert_eq!(elems.iter().map(|e| e.stop_level()).collect::<Vec<_>>(), vec![0, 0, 1, 0, 0, 2]);
    assert_eq!(elems[0], Elem::Val(MultiHotN::new(vec![true, false, false, true], false)));
    assert_eq!(elems[5], Elem::ValStop(MultiHotN::new(vec![false, true, false, false], false), 2));
    let mut brd = BroadcastContext::new();
    brd.add_target();
    brd.add_target();
    let streams = expert_streams(&brd.run(&elems), 2);
    for e in &streams[0] {
        println!("{:?}", e);
    }
    assert_eq!(own(streams[1].clone()), elems);
    // One selector alone is a stream of rank one.
    let one = multihot_elems(&vec![true, false], &vec![2]).unwrap();
    assert_eq!(one, vec![Elem::ValStop(MultiHotN::new(vec![true, false], false), 1)]);
    assert_eq!(multihot_elems(&vec![], &vec![]), Err(SelectShapeError::NoAxis));
    assert_eq!(multihot_elems(&vec![true], &vec![2]), Err(SelectShapeError::Mismatch));
    assert_eq!(multihot_elems(&vec![], &vec![2, 0]), Err(SelectShapeError::ZeroWidth));
    assert_eq!(multihot_elems(&vec![], &vec![0, 3]), Ok(vec![]));
}

#[test]
fn small_calculations() {
    assert_eq!(div_ceil(0, 64), 0);
    assert_eq!(div_ceil(1, 64), 1);
    assert_eq!(div_ceil(64, 64), 1);
    assert_eq!(div_ceil(65, 64), 2);
    assert_eq!(div_ceil(u64::MAX, 1), u64::MAX);
    assert_eq!(div_ceil(u64::MAX, u64::MAX), 1);
    assert_eq!(get_stop_level(0, &[4, 6, 8]), 0);
    assert_eq!(get_stop_level(7, &[4, 6, 8]), 1);
    assert_eq!(get_stop_level(47, &[4, 6, 8]), 2);
    assert_eq!(get_stop_level(191, &[4, 6, 8]), 3);
    assert_eq!(get_stop_level(95, &[4, 6, 8]), 2);
    assert_eq!(get_stop_level(5, &[]), 0);
    assert_eq!(get_stop_level(2, &[1, 1, 3]), 3);
    assert_eq!(get_stop_level(5, &[2, 1, 3]), 3);
    assert_eq!(checked_shape_product(&vec![3, 4, 5]), Some(60));
    assert_eq!(checked_shape_product(&vec![]), Some(1));
    assert_eq!(checked_shape_product(&vec![usize::MAX, 2]), None);
    assert_eq!(checked_shape_product(&vec![usize::MAX, 2, 0]), Some(0));
    assert_eq!(to_usize_vec(vec![1u64, 2, 3]), vec![1usize, 2, 3]);
    assert_eq!(to_usize_vec(vec![7i64]), vec![7usize]);
    assert_eq!(to_u64_vec(vec![1u32, 2]), vec![1u64, 2]);
    assert_eq!(to_u64_vec(Vec::<u8>::new()), Vec::<u64>::new());
}

#[test]
fn events_hold_their_record() {
    let e = SimpleEvent::new("BinaryMap".to_string(), 3, 10, 25, true);
    assert_eq!((e.name().as_str(), e.id(), e.start_ns(), e.end_ns(), e.is_stop()), ("BinaryMap", 3, 10, 25, true));
    assert_eq!(DUMMY_ID, 0);
    assert!(format!("{:?}", e).contains("BinaryMap"));
}
