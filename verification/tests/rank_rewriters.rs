use step_perf::operator::expand::ExpandRef;
use step_perf::operator::flatten::Flatten;
use step_perf::operator::promote::Promote;
use step_perf::operator::repeat::RepeatStatic;
use step_perf::operator::reshape::Reshape;
use step_perf::operator::ProtocolError;
use step_perf::primitives::buffer::Buffer;
use step_perf::primitives::elem::Elem;
use step_perf::primitives::tile::Tile;

fn own<T: Clone>(v: Vec<Elem<&T>>) -> Vec<Elem<T>> {
    v.into_iter()
        .map(|e| match e {
            Elem::Val(x) => Elem::Val(x.clone()),
            Elem::ValStop(x, s) => Elem::ValStop(x.clone(), s),
        })
        .collect()
}

fn stream_of<T: Clone>(shape: Vec<usize>, data: Vec<T>) -> Vec<Elem<T>> {
    let buffer = Buffer::new(shape, data, 0).unwrap();
    own(buffer.to_elem_iter())
}

fn levels<T>(v: &Vec<Elem<T>>) -> Vec<u32> {
    v.iter().map(|e| e.stop_level()).collect()
}

#[test]
fn promote_2d() {
    let input: Vec<Elem<u32>> = (0..4u32)
        .map(|x| Elem::Val(x))
        .chain(std::iter::once(Elem::ValStop(5, 1)))
        .chain((0..4u32).map(|x| Elem::Val(x)))
        .chain(std::iter::once(Elem::ValStop(5, 2)))
        .collect();
    let expected: Vec<Elem<u32>> = (0..4u32)
        .map(|x| Elem::Val(x))
        .chain(std::iter::once(Elem::ValStop(5, 1)))
        .chain((0..4u32).map(|x| Elem::Val(x)))
        .chain(std::iter::once(Elem::ValStop(5, 2)))
        .collect();
    let out = own(Promote::new(2).run(&input));
    assert_eq!(out, expected);
}

#[test]
fn promote_0d() {
    let input = vec![Elem::Val(0), Elem::Val(1), Elem::ValStop(2, 1)];
    let expected = vec![
        Elem::ValStop(0, 1),
        Elem::ValStop(1, 1),
        Elem::ValStop(2, 2),
    ];
    let out = own(Promote::new(0).run(&input));
    assert_eq!(out, expected);
}

#[test]
fn promote_0d_on_0d() {
    let input: Vec<Elem<u32>> = (0..2u32).map(|x| Elem::Val(x)).collect();
    let expected = vec![
        Elem::ValStop(0, 1),
        Elem::ValStop(1, 1),
        Elem::ValStop(2, 1),
    ];
    let out = own(Promote::new(0).run(&input));
    // The stream ends after its two elements; what was sent is the
    // beginning of what is expected.
    assert_eq!(out.len(), 2);
    assert_eq!(out[..], expected[..2]);
}

#[test]
fn promote_element_by_element() {
    let p = Promote::new(1);
    assert_eq!(p.apply(Elem::Val(7u8)), Elem::Val(7u8));
    assert_eq!(p.apply(Elem::ValStop(7u8, 1)), Elem::ValStop(7u8, 1));
    assert_eq!(p.apply(Elem::ValStop(7u8, 2)), Elem::ValStop(7u8, 3));
    assert_eq!(p.apply(Elem::ValStop(7u8, 4)), Elem::ValStop(7u8, 5));
    let q = Promote::new(3);
    assert_eq!(q.apply(Elem::ValStop(7u8, 2)), Elem::ValStop(7u8, 2));
    assert_eq!(q.apply(Elem::ValStop(7u8, 3)), Elem::ValStop(7u8, 3));
    assert_eq!(q.apply(Elem::ValStop(7u8, 4)), Elem::ValStop(7u8, 5));
    let z = Promote::new(0);
    assert_eq!(z.apply(Elem::Val(7u8)), Elem::ValStop(7u8, 1));
    assert_eq!(z.apply(Elem::ValStop(7u8, 1)), Elem::ValStop(7u8, 2));
}

#[test]
fn promote_leaves_the_levels_up_to_its_rank() {
    let input = vec![Elem::Val(0u32), Elem::ValStop(5, 1), Elem::Val(1), Elem::ValStop(5, 2)];
    let out = own(Promote::new(2).run(&input));
    assert_eq!(out, input);
    let out = own(Promote::new(1).run(&input));
    assert_eq!(out, vec![Elem::Val(0u32), Elem::ValStop(5, 1), Elem::Val(1), Elem::ValStop(5, 3)]);
}

fn blank() -> Tile<u32> {
    Tile::<u32>::new_blank(vec![2, 2], 2, true)
}

#[test]
fn flatten_0_1() {
    let input = stream_of(vec![3, 2, 4], vec![blank(); 3 * 2 * 4]);
    let expected = stream_of(vec![3, 8], vec![blank(); 3 * 2 * 4]);
    let out = own(Flatten::new(0, 1).run(&input));
    assert_eq!(out, expected);
}

#[test]
fn flatten_0_1_size1() {
    let input = stream_of(vec![3, 2, 1], vec![blank(); 3 * 2 * 1]);
    let expected = stream_of(vec![3, 2 * 1], vec![blank(); 3 * 2 * 1]);
    let out = own(Flatten::new(0, 1).run(&input));
    assert_eq!(out, expected);
}

#[test]
fn flatten_1_3() {
    // (5, 2, 3, 2, 4) => (5, 2 * 3 * 2, 4)
    let input = stream_of(vec![5, 2, 3, 2, 4], vec![blank(); 5 * 2 * 3 * 2 * 4]);
    let expected = stream_of(vec![5, 2 * 3 * 2, 4], vec![blank(); 5 * 2 * 3 * 2 * 4]);
    let out = own(Flatten::new(1, 3).run(&input));
    assert_eq!(out, expected);
}

#[test]
fn flatten_levels_exact() {
    let f = Flatten::new(1, 3);
    assert_eq!(f.apply(Elem::ValStop(0u8, 1)), Elem::ValStop(0u8, 1));
    assert_eq!(f.apply(Elem::ValStop(0u8, 2)), Elem::ValStop(0u8, 1));
    assert_eq!(f.apply(Elem::ValStop(0u8, 3)), Elem::ValStop(0u8, 1));
    assert_eq!(f.apply(Elem::ValStop(0u8, 4)), Elem::ValStop(0u8, 2));
    assert_eq!(f.apply(Elem::ValStop(0u8, 7)), Elem::ValStop(0u8, 5));
    let g = Flatten::new(0, 2);
    assert_eq!(g.apply(Elem::ValStop(0u8, 1)), Elem::Val(0u8));
    assert_eq!(g.apply(Elem::ValStop(0u8, 2)), Elem::Val(0u8));
    assert_eq!(g.apply(Elem::ValStop(0u8, 3)), Elem::ValStop(0u8, 1));
    assert_eq!(g.apply(Elem::Val(0u8)), Elem::Val(0u8));
}

#[test]
fn flatten_undoes_promotions() {
    // Levels of a rank-3 stream, promoted twice at rank 1 and flattened
    // over the ranks 1 to 3.
    let input = stream_of(vec![2, 3, 2], (0..12u32).collect());
    let once = own(Promote::new(1).run(&input));
    let twice = own(Promote::new(1).run(&once));
    assert_eq!(levels(&twice), vec![0, 1, 0, 1, 0, 4, 0, 1, 0, 1, 0, 5]);
    let back = own(Flatten::new(1, 3).run(&twice));
    assert_eq!(back, input);
    // One promotion at the lower of the pair of ranks, or at the rank
    // below it.
    for rank in [1u32, 2u32] {
        let p = own(Promote::new(rank).run(&input));
        let b = own(Flatten::new(2, 3).run(&p));
        assert_eq!(b, input);
    }
}

fn pad_tile(shape: Vec<usize>) -> Tile<u32> {
    Tile::new_blank_padded(shape, 2, true, 0)
}

#[test]
fn reshape_0d_with_pad() {
    // (1, 3, 9) => (1, 3, 3, 4)
    // the last three vector tiles will be padded values
    let tile_shape: Vec<usize> = vec![1, 4];
    let data = Tile::<u32>::new_blank(tile_shape.clone(), 2, true);
    let input = stream_of(vec![3, 9], vec![data.clone(); 3 * 9]);
    let reshape = Reshape::new(0, 4, Some(pad_tile(tile_shape.clone())), 2, false);
    let out = own(reshape.run(&input).unwrap());

    let mut output_tile_vec = vec![];
    for _ in 0..3 {
        output_tile_vec.extend(vec![data.clone(); 9]);
        output_tile_vec.extend(vec![pad_tile(tile_shape.clone()); 3]);
    }
    let expected = stream_of(vec![3, 3, 4], output_tile_vec);
    assert_eq!(out, expected);
}

#[test]
fn reshape_0d_with_pad_0d_stream() {
    // (9) => (3, 4)
    // the last three vector tiles will be padded values
    let tile_shape: Vec<usize> = vec![1, 4];
    let data = Tile::<u32>::new_blank(tile_shape.clone(), 2, true);
    let input: Vec<Elem<Tile<u32>>> = vec![data.clone(); 9].into_iter().map(Elem::Val).collect();
    let reshape = Reshape::new(0, 4, Some(pad_tile(tile_shape.clone())), 0, false);
    let out = own(reshape.run(&input).unwrap());

    let val_tile = Elem::Val(data.clone());
    let val_stop_tile = Elem::ValStop(data.clone(), 1);
    let val_tile_pad = Elem::Val(pad_tile(tile_shape.clone()));
    let val_stop_tile_pad = Elem::ValStop(pad_tile(tile_shape.clone()), 1);
    let output_tile_vec = vec![
        val_tile.clone(),
        val_tile.clone(),
        val_tile.clone(),
        val_stop_tile.clone(),
        val_tile.clone(),
        val_tile.clone(),
        val_tile.clone(),
        val_stop_tile.clone(),
        val_tile.clone(),
        val_tile_pad.clone(),
        val_tile_pad.clone(),
        val_stop_tile_pad.clone(),
    ];
    assert_eq!(out, output_tile_vec);
    // Twelve elements with stops behind every fourth; the last three are
    // padding.
    assert_eq!(out.len(), 12);
    assert_eq!(levels(&out), vec![0, 0, 0, 1, 0, 0, 0, 1, 0, 0, 0, 1]);
    assert!(out[9..].iter().all(|e| e.data().offset == 0));
    assert!(out[..9].iter().all(|e| e.data().offset == 1));
}

#[test]
fn reshape_0d_with_pad_0d_stream_add_outer_dim_divisible() {
    // (9) => (1, 3, 3)
    let tile_shape: Vec<usize> = vec![1, 4];
    let data = Tile::<u32>::new_blank(tile_shape.clone(), 2, true);
    let input: Vec<Elem<Tile<u32>>> = vec![data.clone(); 9].into_iter().map(Elem::Val).collect();
    let reshape = Reshape::new(0, 3, Some(pad_tile(tile_shape.clone())), 0, true);
    let out = own(reshape.run(&input).unwrap());

    let val_tile = Elem::Val(data.clone());
    let val_stop_tile = Elem::ValStop(data.clone(), 1);
    let val_stop_tile_last = Elem::ValStop(data.clone(), 2);
    let output_tile_vec = vec![
        val_tile.clone(),
        val_tile.clone(),
        val_stop_tile.clone(),
        val_tile.clone(),
        val_tile.clone(),
        val_stop_tile.clone(),
        val_tile.clone(),
        val_tile.clone(),
        val_stop_tile_last.clone(),
    ];
    assert_eq!(out, output_tile_vec);
}

#[test]
fn reshape_0d_with_pad_0d_stream_add_outer_dim() {
    // (9) => (1, 3, 4)
    let tile_shape: Vec<usize> = vec![1, 4];
    let data = Tile::<u32>::new_blank(tile_shape.clone(), 2, true);
    let input: Vec<Elem<Tile<u32>>> = vec![data.clone(); 9].into_iter().map(Elem::Val).collect();
    let reshape = Reshape::new(0, 4, Some(pad_tile(tile_shape.clone())), 0, true);
    let out = own(reshape.run(&input).unwrap());

    let val_tile = Elem::Val(data.clone());
    let val_stop_tile = Elem::ValStop(data.clone(), 1);
    let val_tile_pad = Elem::Val(pad_tile(tile_shape.clone()));
    let val_stop_tile_pad_last = Elem::ValStop(pad_tile(tile_shape.clone()), 2);
    let output_tile_vec = vec![
        val_tile.clone(),
        val_tile.clone(),
        val_tile.clone(),
        val_stop_tile.clone(),
        val_tile.clone(),
        val_tile.clone(),
        val_tile.clone(),
        val_stop_tile.clone(),
        val_tile.clone(),
        val_tile_pad.clone(),
        val_tile_pad.clone(),
        val_stop_tile_pad_last.clone(),
    ];
    assert_eq!(out, output_tile_vec);
}

#[test]
fn reshape_as_promote() {
    // (1,3, 2 * 1) => (1,3, 2, 1)
    let input = stream_of(vec![3, 2 * 1], vec![blank(); 3 * 2 * 1]);
    let reshape = Reshape::new(0, 1, None, 2, false);
    let out = own(reshape.run(&input).unwrap());
    let expected = stream_of(vec![3, 2, 1], vec![blank(); 3 * 2 * 1]);
    assert_eq!(out, expected);
}

#[test]
fn reshape_1d() {
    // (5, 2 * 3, 4) => (5, 2, 3, 4)
    let input = stream_of(vec![5, 2 * 3, 4], vec![blank(); 5 * 2 * 3 * 4]);
    let reshape = Reshape::new(1, 3, None, 2, false);
    let out = own(reshape.run(&input).unwrap());
    let expected = stream_of(vec![5, 2, 3, 4], vec![blank(); 5 * 2 * 3 * 4]);
    assert_eq!(out, expected);
}

#[test]
fn reshape_needs_pad_value() {
    // A group of three does not fill chunks of two.
    let input = vec![Elem::Val(1u32), Elem::Val(2), Elem::ValStop(3, 1)];
    let reshape = Reshape::<u32>::new(0, 2, None, 1, false);
    assert_eq!(reshape.run(&input), Err(ProtocolError::MissingPad));
    // At the end of a stream without stops the same holds.
    let input = vec![Elem::Val(1u32), Elem::Val(2), Elem::Val(3)];
    assert_eq!(reshape.run(&input), Err(ProtocolError::MissingPad));
    // Padding at the end of the stream is for streams of rank zero.
    let padded = Reshape::new(0, 2, Some(0u32), 1, false);
    assert_eq!(padded.run(&input), Err(ProtocolError::BadConfig));
}

#[test]
fn reshape_step_by_step() {
    let mut r = Reshape::new(0, 3, Some(9u8), 0, false);
    let a = r.on_elem(None, true).unwrap();
    assert_eq!((a.stop, a.pads), (None, 0));
    let b = r.on_elem(Some(1), true).unwrap();
    assert_eq!((b.stop, b.pads, b.pad_stop), (None, 1, 2));
    let c = r.on_elem(None, false).unwrap();
    assert_eq!((c.stop, c.pads), (None, 0));
    assert_eq!(r.on_close(), Ok((2, 1)));
}

#[test]
fn expand_0d() {
    let input = vec![Elem::Val(1)];
    let refs = vec![Elem::Val(2), Elem::Val(2), Elem::Val(2)];
    let out = own(ExpandRef::new(1).run(&input, &refs).unwrap());
    assert_eq!(out, vec![Elem::Val(1), Elem::Val(1), Elem::Val(1)]);
}

#[test]
fn expand_3d() {
    // [2,3,1,1] => [2,3,2,4]
    let input = vec![
        Elem::ValStop(1, 2),
        Elem::ValStop(2, 2),
        Elem::ValStop(3, 3),
        Elem::ValStop(4, 2),
        Elem::ValStop(5, 2),
        Elem::ValStop(6, 3),
    ];
    let vec1 = vec![
        Elem::Val(1),
        Elem::Val(1),
        Elem::Val(1),
        Elem::ValStop(1, 1),
        Elem::Val(1),
        Elem::Val(1),
        Elem::Val(1),
        Elem::ValStop(2, 2),
    ];
    let vec2 = vec![
        Elem::Val(1),
        Elem::Val(1),
        Elem::Val(1),
        Elem::ValStop(1, 1),
        Elem::Val(1),
        Elem::Val(1),
        Elem::Val(1),
        Elem::ValStop(2, 3),
    ];
    let chained: Vec<Elem<i32>> = vec1
        .iter()
        .chain(vec1.iter())
        .chain(vec2.iter())
        .chain(vec1.iter())
        .chain(vec1.iter())
        .chain(vec2.iter())
        .cloned()
        .collect();
    let out = own(ExpandRef::new(2).run(&input, &chained).unwrap());
    assert_eq!(out[..3], vec![Elem::Val(1), Elem::Val(1), Elem::Val(1)][..]);
    // Every input element is sent once per reference element of its group,
    // under the stop levels of the references.
    assert_eq!(out.len(), 48);
    assert_eq!(levels(&out), levels(&chained));
    for (k, e) in out.iter().enumerate() {
        assert_eq!(*e.data(), (k / 8) as i32 + 1);
    }
}

#[test]
fn expand_of_bare_input_values() {
    // The reference stream ends under a bare input value: the run ends in
    // order, whatever the rank.
    assert_eq!(own(ExpandRef::new(2).run(&vec![Elem::Val(1)], &vec![Elem::Val(0)]).unwrap()), vec![Elem::Val(1)]);
    // A reference stop is sent on with the input value, and one of the
    // rank or above goes on to the next input value.
    assert_eq!(
        own(ExpandRef::new(1).run(&vec![Elem::Val(1)], &vec![Elem::Val(0), Elem::ValStop(0, 1)]).unwrap()),
        vec![Elem::Val(1), Elem::ValStop(1, 1)]
    );
    let refs = vec![Elem::Val(0), Elem::ValStop(0, 1), Elem::ValStop(0, 2), Elem::Val(0), Elem::ValStop(0, 3)];
    assert_eq!(
        own(ExpandRef::new(2).run(&vec![Elem::Val(7), Elem::Val(8)], &refs).unwrap()),
        vec![Elem::Val(7), Elem::ValStop(7, 1), Elem::ValStop(7, 2), Elem::Val(8), Elem::ValStop(8, 3)]
    );
    assert_eq!(ExpandRef::new(2).step(Some(1)), (Some(1), false));
    assert_eq!(ExpandRef::new(2).step(Some(2)), (Some(2), true));
    assert_eq!(ExpandRef::new(2).step(None), (None, false));
}

#[test]
fn expand_violations() {
    // An input with a stop waits for the reference stop that closes it.
    assert_eq!(
        ExpandRef::new(1).run(&vec![Elem::ValStop(1, 1)], &vec![Elem::Val(0)]),
        Err(ProtocolError::ClosedEarly)
    );
    assert_eq!(ExpandRef::new(1).ref_closed(true), Some(ProtocolError::ClosedEarly));
    assert_eq!(ExpandRef::new(1).ref_closed(false), None);
}

#[test]
fn repeat_static_adds_inner_dimension() {
    let input = vec![Elem::Val(1u32), Elem::ValStop(2, 1)];
    let r = RepeatStatic::new(3);
    let out = own(r.run(&input));
    assert_eq!(
        out,
        vec![
            Elem::Val(1),
            Elem::Val(1),
            Elem::ValStop(1, 1),
            Elem::Val(2),
            Elem::Val(2),
            Elem::ValStop(2, 2),
        ]
    );
    let step = r.step(4);
    assert_eq!((step.copies, step.last_level, step.cycles), (3, 5, 3));
    let once = own(RepeatStatic::new(1).run(&input));
    assert_eq!(once, vec![Elem::ValStop(1, 1), Elem::ValStop(2, 2)]);
}
