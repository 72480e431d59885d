use step_perf::operator::bufferize::Bufferize;
use step_perf::operator::dynstreamify::DynStreamify;
use step_perf::operator::streamify::Streamify;
use step_perf::operator::ProtocolError;
use step_perf::primitives::buffer::{Buffer, BufferBuilder, BufferizeError};
use step_perf::primitives::elem::Elem;
use step_perf::primitives::tile::Tile;

type VT = u32;

fn tile() -> Tile<VT> {
    Tile::<VT>::new_blank(vec![2, 2], 2, false)
}

fn own<T: Clone>(v: Vec<Elem<&T>>) -> Vec<Elem<T>> {
    v.into_iter()
        .map(|e| match e {
            Elem::Val(x) => Elem::Val(x.clone()),
            Elem::ValStop(x, s) => Elem::ValStop(x.clone(), s),
        })
        .collect()
}

fn own_buffer<T: Clone>(b: &Buffer<&T>) -> Buffer<T> {
    Buffer::new(
        b.shape().clone(),
        b.data().iter().map(|x| (*x).clone()).collect(),
        b.creation_time(),
    )
    .unwrap()
}

fn own_buffers<T: Clone>(v: &Vec<Elem<Buffer<&T>>>) -> Vec<Elem<Buffer<T>>> {
    v.iter()
        .map(|e| match e {
            Elem::Val(b) => Elem::Val(own_buffer(b)),
            Elem::ValStop(b, s) => Elem::ValStop(own_buffer(b), *s),
        })
        .collect()
}

fn levels<T>(v: &Vec<Elem<T>>) -> Vec<u32> {
    v.iter().map(|e| e.stop_level()).collect()
}

#[test]
fn buffer_to_iter() {
    let golden = vec![
        Elem::Val(tile()),
        Elem::Val(tile()),
        Elem::ValStop(tile(), 1),
        Elem::Val(tile()),
        Elem::Val(tile()),
        Elem::ValStop(tile(), 2),
    ];
    let tensor = Buffer::new(vec![2, 3], vec![tile(); 6], 0).unwrap();
    let vec = own(tensor.to_elem_iter());
    assert_eq!(vec, golden);
}

#[test]
fn buffer_to_iter_unit_dim() {
    // 1 x 1 x 3
    let golden = vec![Elem::Val(tile()), Elem::Val(tile()), Elem::ValStop(tile(), 3)];
    let tensor = Buffer::new(vec![1, 1, 3], vec![tile(); 3], 0).unwrap();
    let vec = own(tensor.to_elem_iter());
    assert_eq!(vec, golden);
}

#[test]
fn buffer_to_iter_3d() {
    // 2 x 2 x 2
    let golden = vec![
        Elem::Val(tile()),
        Elem::ValStop(tile(), 1),
        Elem::Val(tile()),
        Elem::ValStop(tile(), 2),
        Elem::Val(tile()),
        Elem::ValStop(tile(), 1),
        Elem::Val(tile()),
        Elem::ValStop(tile(), 3),
    ];
    let tensor = Buffer::new(vec![2, 2, 2], vec![tile(); 8], 0).unwrap();
    let vec = own(tensor.to_elem_iter());
    assert_eq!(vec, golden);
}

#[test]
fn buffer_of_one_entry_is_a_stream_of_one() {
    let tensor = Buffer::new(vec![1, 1], vec![7u8], 0).unwrap();
    assert_eq!(own(tensor.to_elem_iter()), vec![Elem::ValStop(7u8, 1)]);
    let tensor = Buffer::new(vec![1], vec![7u8], 0).unwrap();
    assert_eq!(own(tensor.to_elem_iter()), vec![Elem::ValStop(7u8, 1)]);
}

#[test]
fn buffer_shape_has_to_account_for_entries() {
    assert!(Buffer::new(vec![2, 3], vec![0u8; 5], 0).is_none());
    assert!(Buffer::new(vec![2, 0], Vec::<u8>::new(), 0).is_some());
    assert!(Buffer::new(vec![usize::MAX, 2], Vec::<u8>::new(), 0).is_none());
    assert!(Buffer::new(vec![usize::MAX, 2, 0], Vec::<u8>::new(), 0).is_some());
}

#[test]
fn round_trip_test() {
    let golden = vec![
        Elem::Val(tile()),
        Elem::Val(tile()),
        Elem::ValStop(tile(), 1),
        Elem::Val(tile()),
        Elem::Val(tile()),
        Elem::ValStop(tile(), 2),
    ];
    let tensor = Buffer::new(vec![2, 3], vec![tile(); 6], 0).unwrap();
    let input_stream = own(tensor.to_elem_iter());
    assert_eq!(input_stream, golden);

    let (result, next) = Buffer::from_stream(&input_stream, 0, 2, 0);
    let buffer = own_buffer(&result.unwrap());
    assert_eq!(next, 6);
    assert_eq!(buffer, tensor);
    assert_eq!(buffer.shape(), &vec![2, 3]);
}

#[test]
fn buffer_round_trip_test_3d() {
    // 2 x 2 x 3
    let tensor = Buffer::new(vec![2, 2, 3], vec![tile(); 12], 1).unwrap();
    let input_stream = own(tensor.to_elem_iter());

    let (result, _) = Buffer::from_stream(&input_stream, 0, 3, 1);
    let buffer = own_buffer(&result.unwrap());
    assert_eq!(buffer, tensor);
    assert!(buffer.eq_with_time(&tensor));
    assert_eq!(buffer.creation_time(), 1);
    let other_time = Buffer::new(vec![2, 2, 3], vec![tile(); 12], 5).unwrap();
    assert_eq!(buffer, other_time);
    assert!(!buffer.eq_with_time(&other_time));
    // Another shape over the same entries, and other entries under the same
    // shape, are other buffers.
    let other_shape = Buffer::new(vec![2, 3, 2], vec![tile(); 12], 1).unwrap();
    assert!(!buffer.eq_with_time(&other_shape));
    let numbers = Buffer::new(vec![2], vec![1u8, 2], 1).unwrap();
    assert!(numbers.eq_with_time(&Buffer::new(vec![2], vec![1u8, 2], 1).unwrap()));
    assert!(!numbers.eq_with_time(&Buffer::new(vec![2], vec![1u8, 3], 1).unwrap()));
}

#[test]
fn round_trip_over_shapes_and_values() {
    for shape in [vec![5], vec![1], vec![3, 1], vec![2, 2, 1], vec![4, 3, 2], vec![2, 2, 2, 2]] {
        let n: usize = shape.iter().product();
        let tensor = Buffer::new(shape.clone(), (0..n as u32).collect(), 9).unwrap();
        let stream = own(tensor.to_elem_iter());
        let (result, next) = Buffer::from_stream(&stream, 0, shape.len(), 9);
        let back = own_buffer(&result.unwrap());
        assert_eq!(next, n);
        assert_eq!(back.shape(), &shape);
        assert_eq!(back.data(), tensor.data());
        // And out again as a stream.
        let again = own(Streamify::new(vec![], shape.len() as u32).emit(&back, 0));
        assert_eq!(again, stream);
    }
}

#[test]
fn gathering_reports_what_went_wrong() {
    let empty: Vec<Elem<u8>> = vec![];
    assert!(matches!(Buffer::from_stream(&empty, 0, 1, 0).0, Err(BufferizeError::Finished)));
    let open = vec![Elem::Val(1u8), Elem::Val(2)];
    assert!(matches!(Buffer::from_stream(&open, 0, 1, 0).0, Err(BufferizeError::Incomplete)));
    // Two groups of unlike length do not fill a dense array of rank two.
    let ragged = vec![Elem::Val(1u8), Elem::ValStop(2, 1), Elem::ValStop(3, 2)];
    assert!(matches!(Buffer::from_stream(&ragged, 0, 2, 0).0, Err(BufferizeError::Irregular)));
    // A stop of rank two without an inner stop before it names an axis
    // that the entries never showed.
    let flat = vec![Elem::Val(1u8), Elem::ValStop(2, 2)];
    assert!(matches!(Buffer::from_stream(&flat, 0, 2, 0).0, Err(BufferizeError::Irregular)));
    // A stop above the rank closes the buffer and is handed on.
    let higher = vec![Elem::Val(1u8), Elem::ValStop(2, 3), Elem::Val(9)];
    let (r, next) = Buffer::from_stream(&higher, 0, 1, 4);
    assert_eq!(next, 2);
    match r {
        Err(BufferizeError::StopToken(b, level)) => {
            assert_eq!(level, 2);
            assert_eq!(b.shape(), &vec![2]);
            assert_eq!(b.creation_time(), 4);
        }
        _ => panic!("expected the buffer with what is left of the stop"),
    }
}

#[test]
fn builder_gathers_entry_by_entry() {
    let mut b: BufferBuilder<u8> = BufferBuilder::new(2);
    assert!(!b.push(Elem::Val(1), 10));
    assert!(!b.push(Elem::ValStop(2, 1), 11));
    assert!(!b.push(Elem::Val(3), 12));
    assert!(!b.is_closed());
    assert!(b.push(Elem::ValStop(4, 2), 13));
    assert!(b.is_closed());
    let buffer = b.finish().unwrap();
    assert_eq!(buffer.shape(), &vec![2, 2]);
    assert_eq!(buffer.data(), &vec![1, 2, 3, 4]);
    assert_eq!(buffer.creation_time(), 10);
}

#[test]
fn bufferize_round_trip_test_3d() {
    let golden = vec![
        Elem::Val(tile()),
        Elem::Val(tile()),
        Elem::ValStop(tile(), 1),
        Elem::Val(tile()),
        Elem::Val(tile()),
        Elem::ValStop(tile(), 2),
    ];
    let out = Bufferize::new(1).run(&golden, 0).unwrap();
    let out = own_buffers(&out);
    let expected = vec![
        Elem::Val(Buffer::new(vec![3], vec![tile(); 3], 0).unwrap()),
        Elem::ValStop(Buffer::new(vec![3], vec![tile(); 3], 0).unwrap(), 1),
    ];
    assert_eq!(out, expected);
    // Every buffer is stamped with the arrival of its first entry.
    assert_eq!(out[0].data().creation_time(), 0);
    assert_eq!(out[1].data().creation_time(), 3);
}

#[test]
fn bufferize_incomplete_group_is_a_violation() {
    let input = vec![Elem::Val(1u8), Elem::ValStop(2, 1), Elem::Val(3)];
    assert!(matches!(Bufferize::new(1).run(&input, 0), Err(ProtocolError::ClosedEarly)));
    let ragged = vec![Elem::Val(1u8), Elem::ValStop(2, 1), Elem::ValStop(3, 2)];
    assert!(matches!(Bufferize::new(2).run(&ragged, 0), Err(ProtocolError::ShapeMismatch)));
}

#[test]
fn streamify_round_trip_test_3d() {
    // Tiled stream shape: [1,3, 2, 2] => [1,3,|2, 2] =>[1,3, 2, 2, 2] (2D repeat)
    let bufferize_rank = 2;
    let input_tiled_stream = vec![
        Elem::Val(tile()),
        Elem::ValStop(tile(), 1),
        Elem::Val(tile()),
        Elem::ValStop(tile(), 2),
        Elem::Val(tile()),
        Elem::ValStop(tile(), 1),
        Elem::Val(tile()),
        Elem::ValStop(tile(), 2),
        Elem::Val(tile()),
        Elem::ValStop(tile(), 1),
        Elem::Val(tile()),
        Elem::ValStop(tile(), 3),
    ];
    let buffers = own_buffers(&Bufferize::new(bufferize_rank).run(&input_tiled_stream, 0).unwrap());
    let out = own(Streamify::new(vec![2], bufferize_rank).run(&buffers));

    let output_tiled_stream = vec![
        Elem::Val(tile()),
        Elem::ValStop(tile(), 1),
        Elem::Val(tile()),
        Elem::ValStop(tile(), 2),
        Elem::Val(tile()),
        Elem::ValStop(tile(), 1),
        Elem::Val(tile()),
        Elem::ValStop(tile(), 3),
        Elem::Val(tile()),
        Elem::ValStop(tile(), 1),
        Elem::Val(tile()),
        Elem::ValStop(tile(), 2),
        Elem::Val(tile()),
        Elem::ValStop(tile(), 1),
        Elem::Val(tile()),
        Elem::ValStop(tile(), 3),
        Elem::Val(tile()),
        Elem::ValStop(tile(), 1),
        Elem::Val(tile()),
        Elem::ValStop(tile(), 2),
        Elem::Val(tile()),
        Elem::ValStop(tile(), 1),
        Elem::Val(tile()),
        Elem::ValStop(tile(), 4),
    ];
    assert_eq!(out, output_tiled_stream);
}

#[test]
fn round_trip_test_0d() {
    // Tiled stream shape: [2, 2, 2] => [2, |2, 2] => [2, 2, 2]
    let bufferize_rank = 2;
    let input_tiled_stream = vec![
        Elem::Val(tile()),
        Elem::ValStop(tile(), 1),
        Elem::Val(tile()),
        Elem::ValStop(tile(), 2),
        Elem::Val(tile()),
        Elem::ValStop(tile(), 1),
        Elem::Val(tile()),
        Elem::ValStop(tile(), 2),
    ];
    let buffers = own_buffers(&Bufferize::new(bufferize_rank).run(&input_tiled_stream, 0).unwrap());
    let out = own(Streamify::new(vec![], bufferize_rank).run(&buffers));
    assert_eq!(out, input_tiled_stream);
}

#[test]
fn bufferize_streamify_rank_2_repeated_twice() {
    let input: Vec<Elem<u32>> = vec![
        Elem::Val(0),
        Elem::Val(1),
        Elem::ValStop(2, 1),
        Elem::Val(3),
        Elem::Val(4),
        Elem::ValStop(5, 2),
    ];
    let buffers = own_buffers(&Bufferize::new(2).run(&input, 0).unwrap());
    assert_eq!(buffers.len(), 1);
    assert_eq!(buffers[0].data().shape(), &vec![2, 3]);
    let out = own(Streamify::new(vec![2], 2).run(&buffers));
    assert_eq!(out.len(), 12);
    assert_eq!(levels(&out), vec![0, 0, 1, 0, 0, 2, 0, 0, 1, 0, 0, 3]);
    let values: Vec<u32> = out.iter().map(|e| *e.data()).collect();
    assert_eq!(values, vec![0, 1, 2, 3, 4, 5, 0, 1, 2, 3, 4, 5]);
}

#[test]
fn streamify_nested_repeat_loops() {
    let buffer = Buffer::new(vec![2], vec![1u8, 2], 0).unwrap();
    // Two outer readings of three inner readings each.
    let s = Streamify::new(vec![2, 3], 1);
    assert_eq!(s.readings(), 6);
    let out = own(s.emit(&buffer, 0));
    assert_eq!(levels(&out), vec![0, 1, 0, 1, 0, 2, 0, 1, 0, 1, 0, 3]);
    // The buffer's own stop level is added where all loops end.
    let out = own(s.emit(&buffer, 2));
    assert_eq!(levels(&out), vec![0, 1, 0, 1, 0, 2, 0, 1, 0, 1, 0, 5]);
    // No loop: the buffer's stop level alone.
    let out = own(Streamify::new(vec![], 1).emit(&buffer, 2));
    assert_eq!(levels(&out), vec![0, 3]);
    // A loop of no readings sends nothing.
    let out = own(Streamify::new(vec![0], 1).emit(&buffer, 0));
    assert!(out.is_empty());
}

#[test]
fn round_trip_test_repeat_rank_0() {
    // [1] (in) buffer_shape = [2]
    // [4] (ref)
    // repeat_rank = 0
    // output = [4,2]
    let tile = Tile::<VT>::new_blank(vec![2, 2], 2, false);
    let input = vec![Elem::Val(Buffer::new(vec![2], vec![tile.clone(); 2], 0).unwrap())];
    let refs = vec![Elem::Val(0), Elem::Val(0), Elem::Val(0), Elem::Val(0)];
    let out = own(DynStreamify::new(1, 0).run(&input, &refs).unwrap());

    let once = own(Buffer::new(vec![2], vec![tile.clone(); 2], 0).unwrap().to_elem_iter());
    let expected: Vec<Elem<Tile<VT>>> = once
        .iter()
        .chain(once.iter())
        .chain(once.iter())
        .chain(once.iter())
        .cloned()
        .collect();
    assert_eq!(out, expected);
}

#[test]
fn round_trip_test_repeat_rank_1() {
    // [2,3,1,1] (in) buffer_shape = [2,2]
    // [2,3,2,4] (ref)
    // repeat_rank = 1
    // output = [2,3,2,4,2,2]
    let tile = Tile::<VT>::new_blank(vec![2, 2], 2, true);
    let buffer = || Buffer::new(vec![2, 2], vec![tile.clone(); 2 * 2], 0).unwrap();
    let input = vec![
        Elem::ValStop(buffer(), 2),
        Elem::ValStop(buffer(), 2),
        Elem::ValStop(buffer(), 3),
        Elem::ValStop(buffer(), 2),
        Elem::ValStop(buffer(), 2),
        Elem::ValStop(buffer(), 3),
    ];
    let ref_once = own(Buffer::new(vec![3, 2, 4], vec![tile.clone(); 3 * 2 * 4], 0).unwrap().to_elem_iter());
    let refs: Vec<Elem<Tile<VT>>> = ref_once.iter().chain(ref_once.iter()).cloned().collect();
    let out = own(DynStreamify::new(2, 1).run(&input, &refs).unwrap());

    let out_once = own(
        Buffer::new(vec![3, 2, 4, 2, 2], vec![tile.clone(); 3 * 2 * 4 * 2 * 2], 0)
            .unwrap()
            .to_elem_iter(),
    );
    let expected: Vec<Elem<Tile<VT>>> = out_once.iter().chain(out_once.iter()).cloned().collect();
    assert_eq!(out, expected);
}

#[test]
fn dynstreamify_violations() {
    let buffer = || Buffer::new(vec![2], vec![1u8, 2], 0).unwrap();
    // A buffer that came as a bare value is read under a reference stop
    // like any other: its closing stop is raised by the level of the
    // reference.
    let bare = vec![Elem::Val(buffer())];
    assert_eq!(
        own(DynStreamify::new(1, 0).run(&bare, &vec![Elem::Val(0u8), Elem::ValStop(0u8, 1)]).unwrap()),
        vec![Elem::Val(1u8), Elem::ValStop(2, 1), Elem::Val(1), Elem::ValStop(2, 2)]
    );
    // A buffer of rank two under a declared rank of one has a stop above
    // the rank.
    let deep = Buffer::new(vec![2, 2], vec![1u8, 2, 3, 4], 0).unwrap();
    assert_eq!(
        DynStreamify::new(1, 0).run(&vec![Elem::ValStop(deep, 1)], &vec![Elem::ValStop(0u8, 1)]),
        Err(ProtocolError::LevelAboveRank)
    );
}
