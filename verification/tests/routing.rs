use step_perf::operator::broadcast::BroadcastContext;
use step_perf::operator::eager_merge::{pick_earliest, EagerMerge, MergeDecision, Peek};
use step_perf::operator::parallelize::Parallelize;
use step_perf::operator::partition::{expert_streams, FlatPartition, FlatPartitionConfig};
use step_perf::operator::reassemble::{order_by_arrival, FlatReassemble, FlatReassembleConfig};
use step_perf::operator::ProtocolError;
use step_perf::primitives::elem::Elem;
use step_perf::primitives::select::{IndexN, MultiHotN, SelectAdapter};
use step_perf::primitives::tile::Tile;

fn own<T: Clone>(v: Vec<Elem<&T>>) -> Vec<Elem<T>> {
    v.into_iter()
        .map(|e| match e {
            Elem::Val(x) => Elem::Val(x.clone()),
            Elem::ValStop(x, s) => Elem::ValStop(x.clone(), s),
        })
        .collect()
}

fn own_all<T: Clone>(v: Vec<Vec<Elem<&T>>>) -> Vec<Vec<Elem<T>>> {
    v.into_iter().map(own).collect()
}

fn arrays() -> Vec<Tile<i32>> {
    (0..9)
        .map(|i| Tile::new(2, 2, vec![i as i32; 4], 4, true).unwrap())
        .collect()
}

fn back_to_back<T>(streams: &Vec<Vec<Elem<T>>>) -> Vec<Vec<u64>> {
    streams.iter().map(|s| (0..s.len() as u64).collect()).collect()
}

fn create_multi_hot_arrays(n: usize, sel: usize, length: usize, read_from_mu: bool) -> Vec<MultiHotN> {
    let mut multi_hot_arrays = Vec::new();
    for i in 0..length {
        let mut selection = vec![false; n];
        for j in 0..sel {
            selection[(i + j) % n] = true;
        }
        multi_hot_arrays.push(MultiHotN::new(selection, read_from_mu));
    }
    multi_hot_arrays
}

fn grid_stream() -> Vec<Elem<Tile<i32>>> {
    let mut in_stream_data = Vec::new();
    for (i, tile) in arrays().into_iter().enumerate() {
        // Add ValStop at indices 2, 5, 8 (end of each row in 3x3 grid)
        if i % 3 == 2 {
            if i == 8 {
                in_stream_data.push(Elem::ValStop(tile, 2));
            } else {
                in_stream_data.push(Elem::ValStop(tile, 1));
            }
        } else {
            in_stream_data.push(Elem::Val(tile));
        }
    }
    in_stream_data
}

fn grouped_streams() -> Vec<Vec<Elem<Tile<i32>>>> {
    let arrays = arrays();
    let mut streams: Vec<Vec<Elem<Tile<i32>>>> = vec![Vec::new(); 4];
    let stream_mappings = [
        vec![0, 1, 2],          // Stream 0: arrays 0, 1, 2S1
        vec![0, 1, 2, 3, 4, 5], // Stream 1: arrays 0, 1, 2S1, 3, 4, 5S1
        vec![3, 4, 5, 6, 7, 8], // Stream 2: arrays 3, 4, 5S1, 6, 7, 8S1
        vec![6, 7, 8],          // Stream 3: arrays 6, 7, 8S1
    ];
    for (stream_idx, array_indices) in stream_mappings.iter().enumerate() {
        for (pos, &array_idx) in array_indices.iter().enumerate() {
            let tile = arrays[array_idx].clone();
            if (pos + 1) % 3 == 0 {
                streams[stream_idx].push(Elem::ValStop(tile, 1));
            } else {
                streams[stream_idx].push(Elem::Val(tile));
            }
        }
    }
    streams
}

fn two_of_four_selectors() -> Vec<Elem<MultiHotN>> {
    vec![
        Elem::Val(MultiHotN::new(vec![true, true, false, false], true)),
        Elem::Val(MultiHotN::new(vec![false, true, true, false], true)),
        Elem::ValStop(MultiHotN::new(vec![false, false, true, true], true), 1),
    ]
}

#[test]
fn flat_partition_2d_multi_hot_rank_1() {
    let config = FlatPartitionConfig { switch_cycles: vec![1, 2, 3, 4], write_back_mu: true };
    let partition = FlatPartition::new(1, config, 4);
    let input = grid_stream();
    let routed = partition.run(&input, &two_of_four_selectors()).unwrap();
    let out = own_all(expert_streams(&routed, 4));
    assert_eq!(out, grouped_streams());
}

#[test]
fn flat_partition_1d_multi_hot_rank_0() {
    let arrays = arrays();
    let mut in_stream_data: Vec<Elem<Tile<i32>>> = Vec::new();
    for (i, tile) in arrays.iter().enumerate() {
        if i == 8 {
            in_stream_data.push(Elem::ValStop(tile.clone(), 1));
        } else {
            in_stream_data.push(Elem::Val(tile.clone()));
        }
    }
    let select_multi_hots = create_multi_hot_arrays(4, 2, 9, true);
    let mut select_stream_data: Vec<Elem<MultiHotN>> = Vec::new();
    for (i, multi_hot) in select_multi_hots.iter().enumerate() {
        if i == 8 {
            select_stream_data.push(Elem::ValStop(multi_hot.clone(), 1));
        } else {
            select_stream_data.push(Elem::Val(multi_hot.clone()));
        }
    }
    let mut ground_truth: Vec<Vec<Elem<Tile<i32>>>> = vec![Vec::new(); 4];
    for (i, array_idx) in select_multi_hots.iter().enumerate() {
        for (j, &is_selected) in array_idx.as_vec().iter().enumerate() {
            if is_selected {
                ground_truth[j].push(Elem::Val(arrays[i].clone()));
            }
        }
    }
    let config = FlatPartitionConfig { switch_cycles: vec![1, 2, 3, 4], write_back_mu: true };
    let partition = FlatPartition::new(0, config, 4);
    let routed = partition.run(&in_stream_data, &select_stream_data).unwrap();
    let out = own_all(expert_streams(&routed, 4));
    assert_eq!(out, ground_truth);
}

#[test]
fn partition_costs_and_violations() {
    let config = FlatPartitionConfig { switch_cycles: vec![1, 7, 3, 4], write_back_mu: true };
    let partition = FlatPartition::new(1, config, 4);
    let tile = Tile::<i32>::new_blank(vec![16, 16], 2, true);
    // 512 bytes at 64 bytes per cycle.
    assert_eq!(partition.load_cycles(&tile), 8);
    assert_eq!(partition.write_cycles(&vec![0, 2], &tile), 3 + 8);
    assert_eq!(partition.write_cycles(&vec![2, 1], &tile), 7 + 8);
    assert_eq!(partition.write_cycles(&vec![], &tile), 8);
    let on_chip = Tile::<i32>::new_blank(vec![16, 16], 2, false);
    assert_eq!(partition.load_cycles(&on_chip), 0);
    assert!(partition.write_back_mu());

    let sel = |v: Vec<bool>| MultiHotN::new(v, false);
    // A stop above the rank under a bare selector.
    assert_eq!(
        partition.run(&vec![Elem::ValStop(1u8, 2)], &vec![Elem::Val(sel(vec![true]))]),
        Err(ProtocolError::LevelAboveRank)
    );
    // A selector stop that the data does not show.
    assert_eq!(
        partition.run(&vec![Elem::ValStop(1u8, 1)], &vec![Elem::ValStop(sel(vec![true]), 1)]),
        Err(ProtocolError::SelectorMismatch)
    );
    // Data that ends inside a group.
    assert_eq!(
        partition.run(&vec![Elem::Val(1u8)], &vec![Elem::Val(sel(vec![true]))]),
        Err(ProtocolError::ClosedEarly)
    );
    // A selector that names an output that is not there.
    assert_eq!(
        partition.run(
            &vec![Elem::ValStop(1u8, 1)],
            &vec![Elem::Val(IndexN::from_sel_vec(vec![9], 1, false))]
        ),
        Err(ProtocolError::BadConfig)
    );
}

#[test]
fn flat_reassemble_2d_multi_hot_rank_1() {
    let input_streams_data = grouped_streams();
    let arrays = arrays();
    let mut ground_truth = Vec::new();
    for i in 0..3 {
        for t in 0..2 {
            for j in 0..3 {
                let tile = arrays[i * 3 + j].clone();
                if i == 2 && t == 1 && j == 2 {
                    ground_truth.push(Elem::ValStop(tile, 3));
                } else if i < 2 && t == 1 && j == 2 {
                    ground_truth.push(Elem::ValStop(tile, 2));
                } else if t < 1 && j == 2 {
                    ground_truth.push(Elem::ValStop(tile, 1));
                } else {
                    ground_truth.push(Elem::Val(tile));
                }
            }
        }
    }
    let config = FlatReassembleConfig { switch_cycles: vec![1, 2, 3, 4], write_back_mu: true };
    let reassemble = FlatReassemble::new(1, config);
    let arrivals = back_to_back(&input_streams_data);
    let out = own(reassemble.run(&input_streams_data, &arrivals, &two_of_four_selectors()).unwrap());
    assert_eq!(out, ground_truth);
}

#[test]
fn flat_reassemble_1d_multi_hot_rank_0() {
    let arrays = arrays();
    let multi_hot = create_multi_hot_arrays(4, 2, 9, true);
    let mut input_streams_data: Vec<Vec<Elem<Tile<i32>>>> = vec![Vec::new(); 4];
    for (i, array_idx) in multi_hot.iter().enumerate() {
        for (j, &is_selected) in array_idx.as_vec().iter().enumerate() {
            if is_selected {
                input_streams_data[j].push(Elem::Val(arrays[i].clone()));
            }
        }
    }
    let mut ground_truth = Vec::new();
    for elem in arrays.iter() {
        for i in 0..2 {
            if i == 2 - 1 {
                ground_truth.push(Elem::ValStop(elem.clone(), 1));
            } else {
                ground_truth.push(Elem::Val(elem.clone()));
            }
        }
    }
    let select_stream_data: Vec<Elem<MultiHotN>> = multi_hot.iter().map(|m| Elem::Val(m.clone())).collect();
    let config = FlatReassembleConfig { switch_cycles: vec![1, 2, 3, 4], write_back_mu: true };
    let reassemble = FlatReassemble::new(0, config);
    let arrivals = back_to_back(&input_streams_data);
    let out = own(reassemble.run(&input_streams_data, &arrivals, &select_stream_data).unwrap());
    assert_eq!(out, ground_truth);
}

#[test]
fn reassemble_serves_in_order_of_arrival() {
    let inputs = vec![
        vec![Elem::ValStop(10u32, 1)],
        vec![Elem::ValStop(20u32, 1)],
        vec![Elem::ValStop(30u32, 1)],
    ];
    let sels = vec![Elem::Val(MultiHotN::new(vec![true, true, true], false))];
    let reassemble =
        FlatReassemble::new(1, FlatReassembleConfig { switch_cycles: vec![0, 0, 0], write_back_mu: false });
    let out = own(reassemble.run(&inputs, &vec![vec![5], vec![3], vec![4]], &sels).unwrap());
    assert_eq!(out, vec![Elem::ValStop(20, 1), Elem::ValStop(30, 1), Elem::ValStop(10, 2)]);
    // Equal arrivals are served in the order of the inputs.
    let out = own(reassemble.run(&inputs, &vec![vec![4], vec![3], vec![4]], &sels).unwrap());
    assert_eq!(out, vec![Elem::ValStop(20, 1), Elem::ValStop(10, 1), Elem::ValStop(30, 2)]);
    assert_eq!(order_by_arrival(&vec![4, 3, 4, 3, 0]), vec![4, 1, 3, 0, 2]);
    assert_eq!(order_by_arrival(&vec![]), Vec::<usize>::new());
}

#[test]
fn reassemble_costs_and_violations() {
    let reassemble =
        FlatReassemble::new(1, FlatReassembleConfig { switch_cycles: vec![1, 2], write_back_mu: true });
    let tile = Tile::<i32>::new_blank(vec![16, 16], 2, true);
    assert_eq!(reassemble.ready_time(100, &tile, 1), 100 + 2 + 8);
    assert_eq!(reassemble.writeback_cycles(&tile), 8);
    assert_eq!(reassemble.step(2, true, Some(1)), (Some(4), true));
    assert_eq!(reassemble.step(2, false, Some(1)), (Some(1), true));
    assert_eq!(reassemble.step(2, true, None), (None, false));

    let sel = |v: Vec<bool>| MultiHotN::new(v, false);
    let inputs = vec![vec![Elem::Val(1u8)], vec![]];
    let arrivals = vec![vec![0], vec![]];
    // An input that ends inside its group.
    assert_eq!(
        reassemble.run(&inputs, &arrivals, &vec![Elem::Val(sel(vec![true, false]))]),
        Err(ProtocolError::ClosedEarly)
    );
    // An input that shows nothing, and a selector that names none.
    assert_eq!(
        reassemble.run(&inputs, &arrivals, &vec![Elem::Val(sel(vec![false, true]))]),
        Err(ProtocolError::ClosedEarly)
    );
    assert_eq!(
        reassemble.run(&inputs, &arrivals, &vec![Elem::Val(sel(vec![false, false]))]),
        Err(ProtocolError::ClosedEarly)
    );
    assert_eq!(
        reassemble.run(&inputs, &arrivals, &vec![Elem::Val(sel(vec![false, false, true]))]),
        Err(ProtocolError::BadConfig)
    );
}

#[test]
fn partition_then_reassemble_gives_the_stream_back() {
    // A rank-2 stream of groups of rank 1, routed by selectors that name
    // one output each.
    let input: Vec<Elem<u32>> = vec![
        Elem::Val(0),
        Elem::ValStop(1, 1),
        Elem::ValStop(2, 1),
        Elem::Val(3),
        Elem::Val(4),
        Elem::ValStop(5, 2),
    ];
    let sels = vec![
        Elem::Val(MultiHotN::new(vec![false, true, false], false)),
        Elem::Val(MultiHotN::new(vec![true, false, false], false)),
        Elem::ValStop(MultiHotN::new(vec![false, true, false], false), 1),
    ];
    let partition =
        FlatPartition::new(1, FlatPartitionConfig { switch_cycles: vec![1, 1, 1], write_back_mu: false }, 3);
    let routed = partition.run(&input, &sels).unwrap();
    let streams = own_all(expert_streams(&routed, 3));
    assert_eq!(streams[1], vec![Elem::Val(0), Elem::ValStop(1, 1), Elem::Val(3), Elem::Val(4), Elem::ValStop(5, 1)]);
    assert_eq!(streams[0], vec![Elem::ValStop(2, 1)]);
    let reassemble =
        FlatReassemble::new(1, FlatReassembleConfig { switch_cycles: vec![1, 1, 1], write_back_mu: false });
    for arrivals in [vec![vec![0], vec![0, 1, 2, 3, 4], vec![]], vec![vec![9], vec![7, 7, 7, 7, 7], vec![]]] {
        let out = own(reassemble.run(&streams, &arrivals, &sels).unwrap());
        let values: Vec<u32> = out.iter().map(|e| *e.data()).collect();
        assert_eq!(values, vec![0, 1, 2, 3, 4, 5]);
        // The stops that closed a group come back one level higher.
        assert_eq!(
            out,
            vec![
                Elem::Val(0),
                Elem::ValStop(1, 2),
                Elem::ValStop(2, 2),
                Elem::Val(3),
                Elem::Val(4),
                Elem::ValStop(5, 3),
            ]
        );
    }
}

#[test]
fn partition_passes_inner_stops_under_a_selector_stop() {
    let input: Vec<Elem<u32>> = vec![Elem::Val(10), Elem::ValStop(11, 1), Elem::Val(12), Elem::ValStop(13, 3)];
    let sels = vec![Elem::ValStop(MultiHotN::new(vec![true, false], false), 1)];
    let partition = FlatPartition::new(2, FlatPartitionConfig { switch_cycles: vec![1, 1], write_back_mu: false }, 2);
    assert_eq!(partition.route(Some(3), Some(1)), Ok((Some(1), false)));
    assert_eq!(partition.route(Some(3), Some(3)), Ok((Some(2), true)));
    assert_eq!(partition.route(Some(3), Some(2)), Err(ProtocolError::SelectorMismatch));
    assert_eq!(partition.route(Some(3), Some(4)), Err(ProtocolError::SelectorMismatch));
    assert_eq!(partition.route(Some(3), None), Ok((None, false)));
    let routed = partition.run(&input, &sels).unwrap();
    let streams = own_all(expert_streams(&routed, 2));
    assert_eq!(streams[0], vec![Elem::Val(10), Elem::ValStop(11, 1), Elem::Val(12), Elem::ValStop(13, 2)]);
    assert!(streams[1].is_empty());
    let reassemble = FlatReassemble::new(2, FlatReassembleConfig { switch_cycles: vec![1, 1], write_back_mu: false });
    let out = own(reassemble.run(&streams, &vec![vec![0, 1, 2, 3], vec![]], &sels).unwrap());
    assert_eq!(out, vec![Elem::Val(10), Elem::ValStop(11, 1), Elem::Val(12), Elem::ValStop(13, 4)]);
}

fn data_tile(range: std::ops::Range<u32>) -> Tile<u32> {
    Tile::<u32>::new(2, 2, range.collect(), 2, false).unwrap()
}

#[test]
fn parallelize_0d() {
    let input = vec![
        Elem::Val(data_tile(0..4)),
        Elem::Val(data_tile(4..8)),
        Elem::Val(data_tile(8..12)),
        Elem::Val(data_tile(12..16)),
    ];
    let par = Parallelize::new(0, FlatPartitionConfig { switch_cycles: vec![1; 4], write_back_mu: false }, 4);
    let out = own_all(expert_streams(&par.run(&input).unwrap(), 4));
    assert_eq!(out[0], vec![Elem::Val(data_tile(0..4))]);
    assert_eq!(out[1], vec![Elem::Val(data_tile(4..8))]);
    assert_eq!(out[2], vec![Elem::Val(data_tile(8..12))]);
    assert_eq!(out[3], vec![Elem::Val(data_tile(12..16))]);
}

#[test]
fn parallelize_1d() {
    let input = vec![
        Elem::ValStop(data_tile(0..4), 1),
        Elem::ValStop(data_tile(4..8), 1),
        Elem::ValStop(data_tile(8..12), 1),
        Elem::ValStop(data_tile(12..16), 1),
    ];
    let par = Parallelize::new(1, FlatPartitionConfig { switch_cycles: vec![1; 4], write_back_mu: false }, 4);
    let out = own_all(expert_streams(&par.run(&input).unwrap(), 4));
    assert_eq!(out[0], vec![Elem::ValStop(data_tile(0..4), 1)]);
    assert_eq!(out[1], vec![Elem::ValStop(data_tile(4..8), 1)]);
    assert_eq!(out[2], vec![Elem::ValStop(data_tile(8..12), 1)]);
    assert_eq!(out[3], vec![Elem::ValStop(data_tile(12..16), 1)]);
}

#[test]
fn parallelize_goes_round() {
    let input: Vec<Elem<u8>> = vec![
        Elem::Val(1),
        Elem::ValStop(2, 1),
        Elem::ValStop(3, 1),
        Elem::Val(4),
        Elem::ValStop(5, 1),
    ];
    let par = Parallelize::new(1, FlatPartitionConfig { switch_cycles: vec![3, 5], write_back_mu: false }, 2);
    let out = own_all(expert_streams(&par.run(&input).unwrap(), 2));
    assert_eq!(out[0], vec![Elem::Val(1), Elem::ValStop(2, 1), Elem::Val(4), Elem::ValStop(5, 1)]);
    assert_eq!(out[1], vec![Elem::ValStop(3, 1)]);
    assert_eq!(par.switch_delay(1), 5);
    assert_eq!(par.next(1), 0);
    assert_eq!(par.step(Some(1)), Ok(true));
    assert_eq!(par.step(None), Ok(false));
    // A stop above the rank is not dealt out.
    assert_eq!(par.check_level(Some(2)), Some(ProtocolError::LevelAboveRank));
    assert_eq!(par.check_level(Some(1)), None);
    assert_eq!(par.check_level(None), None);
}

fn sender(num_matrices: usize, offset: u64, bytes_per_element: usize) -> (Vec<Elem<Tile<u32>>>, Vec<u64>) {
    let mut elems = Vec::new();
    let mut times = Vec::new();
    let mut now = offset;
    for _ in 0..num_matrices {
        let tile = Tile::<u32>::new_blank(vec![2, 2], bytes_per_element, false);
        for j in 0..4 {
            let elem = if j % 4 == 3 {
                Elem::ValStop(tile.clone(), 2)
            } else if j % 2 == 1 {
                Elem::ValStop(tile.clone(), 1)
            } else {
                Elem::Val(tile.clone())
            };
            elems.push(elem);
            times.push(now + j as u64);
        }
        now += offset;
    }
    (elems, times)
}

#[test]
fn eager_merge_simple_2d() {
    let (s0, t0) = sender(3, 12, 2);
    let (s1, t1) = sender(1, 14, 4);
    let merge = EagerMerge::new(2, 2);
    let inputs = vec![s0.clone(), s1.clone()];
    let (out, picks) = merge.run(&inputs, &vec![t0, t1]).unwrap();
    // should be merged in the 0 1 0 0 order
    assert_eq!(picks, vec![0, 1, 0, 0]);
    let out = own(out);
    assert_eq!(out.len(), 16);
    assert_eq!(out[0..4], s0[0..4]);
    assert_eq!(out[4..8], s1[0..4]);
    assert_eq!(out[8..16], s0[4..12]);
    // One selector per group.
    let sel: MultiHotN = MultiHotN::from_sel_vec(merge.selection(picks[1]), 2, false);
    assert_eq!(sel.as_vec(), &vec![false, true]);
}

#[test]
fn eager_merge_round_trip_2d() {
    let (s0, t0) = sender(3, 12, 2);
    let (s1, t1) = sender(1, 14, 4);
    let merge = EagerMerge::new(2, 2);
    let inputs = vec![s0, s1];
    let (merged, picks) = merge.run(&inputs, &vec![t0, t1]).unwrap();
    let merged = own(merged);
    let sels: Vec<Elem<MultiHotN>> = picks
        .iter()
        .map(|p| Elem::Val(MultiHotN::from_sel_vec(merge.selection(*p), 2, false)))
        .collect();
    let partition =
        FlatPartition::new(2, FlatPartitionConfig { switch_cycles: vec![1, 1], write_back_mu: false }, 2);
    let out = own_all(expert_streams(&partition.run(&merged, &sels).unwrap(), 2));

    let tile0 = Tile::<u32>::new_blank(vec![2, 2], 2, false);
    let from_sender0 = vec![
        Elem::Val(tile0.clone()),
        Elem::ValStop(tile0.clone(), 1),
        Elem::Val(tile0.clone()),
        Elem::ValStop(tile0.clone(), 2),
    ];
    let expected0 = [from_sender0.as_slice(), from_sender0.as_slice(), from_sender0.as_slice()].concat();
    assert_eq!(out[0], expected0);
    let tile1 = Tile::<u32>::new_blank(vec![2, 2], 4, false);
    assert_eq!(
        out[1],
        vec![
            Elem::Val(tile1.clone()),
            Elem::ValStop(tile1.clone(), 1),
            Elem::Val(tile1.clone()),
            Elem::ValStop(tile1.clone(), 2),
        ]
    );
}

#[test]
fn merge_decides_by_earliest_time_and_lowest_input() {
    let merge = EagerMerge::new(1, 3);
    let (some, nothing, closed) = (Peek::Something, Peek::Nothing, Peek::Closed);
    assert_eq!(merge.decide(&vec![some(7), some(5), some(9)], 0), MergeDecision::Take(1));
    assert_eq!(merge.decide(&vec![some(5), some(5), closed], 0), MergeDecision::Take(0));
    // A silent input may still bring an earlier element.
    assert_eq!(merge.decide(&vec![some(7), nothing, closed], 6), MergeDecision::Wait);
    assert_eq!(merge.decide(&vec![some(7), nothing, closed], 7), MergeDecision::Take(0));
    assert_eq!(merge.decide(&vec![nothing, closed, closed], 100), MergeDecision::Wait);
    assert_eq!(merge.decide(&vec![closed, closed, closed], 0), MergeDecision::Finished);
    assert_eq!(merge.decide(&vec![], 0), MergeDecision::Finished);
    assert_eq!(pick_earliest(&vec![None, Some(3), Some(2), Some(2)]), Some(2));
    assert_eq!(pick_earliest(&vec![None, None]), None);
    assert_eq!(merge.step(Some(1)), Ok(true));
    assert_eq!(merge.step(None), Ok(false));
    assert_eq!(merge.step(Some(2)), Err(ProtocolError::LevelAboveRank));
}

#[test]
fn same_inputs_merge_the_same_way() {
    let (s0, t0) = sender(2, 12, 2);
    let (s1, t1) = sender(2, 12, 4);
    let merge = EagerMerge::new(2, 2);
    let inputs = vec![s0.clone(), s1.clone()];
    let a = merge.run(&inputs, &vec![t0.clone(), t1.clone()]).unwrap();
    let b = merge.run(&inputs, &vec![t0, t1]).unwrap();
    assert_eq!(a.1, b.1);
    // Equal arrivals: the input of the lower number goes first.
    assert_eq!(a.1, vec![0, 1, 0, 1]);
    assert_eq!(own(a.0), own(b.0));
}

#[test]
fn broadcast_sends_to_every_target() {
    let mut b = BroadcastContext::new();
    assert_eq!(b.add_target(), 0);
    assert_eq!(b.add_target(), 1);
    let input = vec![Elem::Val(1u8), Elem::ValStop(2, 1)];
    let out = own_all(expert_streams(&b.run(&input), 2));
    assert_eq!(out, vec![input.clone(), input.clone()]);
    let order: Vec<usize> = b.run(&input).iter().map(|r| r.0).collect();
    assert_eq!(order, vec![0, 1, 0, 1]);
    let sel = IndexN::new(vec![Some(1), None], false);
    assert_eq!(sel.to_sel_vec(), vec![1]);
}
